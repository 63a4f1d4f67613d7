[package]
name = "boot_paging"
version = "0.1.0"
edition = "2021"
publish = false

[dependencies]
x86_64 = { version = "=0.15.5", default-features = false, features = ["instructions"] }
heapless = "=0.8.0"
uefi = "*"
log = "*"
uart_16550 = "*"
byte-unit = "*"
