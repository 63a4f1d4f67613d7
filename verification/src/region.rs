//! Plain-value model of the firmware memory map: regions as they arrive from
//! the boot environment, and the aligned frame descriptors the classifier
//! derives from them.

use vstd::prelude::*;
use crate::page_size::PageSize;

verus! {

/// All addresses handled by this subsystem stay below this bound (2^52 minus
/// headroom for one 1 GiB alignment step), so alignment arithmetic never
/// leaves the physical address width the hardware accepts.
pub const ADDR_LIMIT: u64 = 0x000F_FFFF_0000_0000;

/// The category a firmware region belongs to. Mirrors the closed enumeration
/// of region types the boot environment reports; categories this subsystem
/// does not act on fall under `Other`.
#[derive(Clone, Copy, PartialEq, Eq, Structural, Debug)]
pub enum RegionKind {
    Conventional,
    KernelCode,
    KernelData,
    Mmio,
    MmioPortSpace,
    AcpiReclaim,
    BootServicesCode,
    BootServicesData,
    Other,
}

/// One firmware-supplied memory region: physical start, paired virtual
/// start, page count in 4 KiB units, and its category. Read-only input.
#[derive(Clone, Copy, PartialEq, Eq, Structural, Debug)]
pub struct MemoryRegion {
    pub phys_start: u64,
    pub virt_start: u64,
    pub page_count: u64,
    pub kind: RegionKind,
}

/// Bounds under which all derived arithmetic (alignment, waste sums,
/// virtual offsets) fits in `u64` and stays inside the physical address
/// width.
pub open spec fn region_wf(r: MemoryRegion) -> bool {
    &&& r.phys_start + r.page_count * 4096 <= ADDR_LIMIT
    &&& r.virt_start + r.page_count * 4096 <= ADDR_LIMIT
}

/// An aligned frame run derived from one region at one granularity:
/// aligned physical start, matching virtual start (the region's original
/// physical/virtual offset is preserved), granularity, and page count in
/// units of that granularity.
#[derive(Clone, Copy, PartialEq, Eq, Structural, Debug)]
pub struct MyMemoryDescriptor {
    pub phys_start: u64,
    pub virt_start: u64,
    pub page_size: PageSize,
    pub page_count: u64,
}

impl MyMemoryDescriptor {
    /// A region taken as-is, one Normal page per reported 4 KiB page.
    pub fn from_region(r: &MemoryRegion) -> (d: MyMemoryDescriptor)
        ensures
            d.phys_start == r.phys_start,
            d.virt_start == r.virt_start,
            d.page_size == PageSize::Normal,
            d.page_count == r.page_count,
    {
        MyMemoryDescriptor {
            phys_start: r.phys_start,
            virt_start: r.virt_start,
            page_size: PageSize::Normal,
            page_count: r.page_count,
        }
    }
}

} // verus!
