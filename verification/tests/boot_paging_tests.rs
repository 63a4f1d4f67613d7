use boot_paging::classifier::{align_frame, chosen_granularity, evaluate_candidate, get_frames};
use boot_paging::frame_alloc::PhysFrameAllocator;
use boot_paging::mapping::{
    lookup, map_page, mem_desc2frame_range, mmap, next_page, ranges_map_to, FrameRange,
};
use boot_paging::page_size::{page_table_usage, PageSize};
use boot_paging::paging::{MapError, PageFlags, PageTables};
use boot_paging::region::{MemoryRegion, MyMemoryDescriptor, RegionKind};
use boot_paging::setup::{set_up_paging, KERNELLAND, MAPPED_PHYS_MEMORY};

const GIB: u64 = 0x4000_0000;
const MIB2: u64 = 0x20_0000;
const KIB4: u64 = 0x1000;

fn region(phys: u64, pages: u64, kind: RegionKind) -> MemoryRegion {
    MemoryRegion { phys_start: phys, virt_start: phys, page_count: pages, kind }
}

fn rw_nx() -> PageFlags {
    PageFlags { writable: true, no_execute: true }
}

#[test]
fn page_sizes() {
    assert_eq!(PageSize::Huge.size(), GIB);
    assert_eq!(PageSize::Large.size(), MIB2);
    assert_eq!(PageSize::Normal.size(), KIB4);
}

#[test]
fn table_usage_exact_values() {
    assert_eq!(page_table_usage(PageSize::Normal, 0), 0);
    assert_eq!(page_table_usage(PageSize::Normal, 1), 3);
    assert_eq!(page_table_usage(PageSize::Normal, 513), 4);
    assert_eq!(page_table_usage(PageSize::Large, 513), 3);
    assert_eq!(page_table_usage(PageSize::Huge, 513), 2);
    assert_eq!(page_table_usage(PageSize::Huge, 1), 1);
}

#[test]
fn align_frame_trims_front_and_back() {
    // 4 MiB region starting at 1 MiB: at Large granularity only the middle
    // 2 MiB survives, wasting 1 MiB at each end.
    let r = region(0x10_0000, 1024, RegionKind::Conventional);
    let (f, waste) = align_frame(&r, PageSize::Large);
    let f = f.expect("one Large page fits");
    assert_eq!(f.phys_start, 0x20_0000);
    assert_eq!(f.virt_start, 0x20_0000);
    assert_eq!(f.page_count, 1);
    assert_eq!(waste, 0x20_0000);
}

#[test]
fn align_frame_empty_region() {
    let r = region(0x1000, 0, RegionKind::Conventional);
    let (f, waste) = align_frame(&r, PageSize::Normal);
    assert!(f.is_none());
    assert_eq!(waste, 0);
}

#[test]
fn align_frame_too_small_for_granularity() {
    let r = region(GIB, 1, RegionKind::Conventional);
    let (f, waste) = align_frame(&r, PageSize::Huge);
    assert!(f.is_none());
    assert_eq!(waste, 0);
}

#[test]
fn huge_selected_with_zero_trim_waste() {
    // Three gigabyte-aligned regions sized 4 KiB, 2 MiB and 1 GiB: only the
    // last contributes at Huge granularity, nothing is trimmed, and Huge's
    // single extra table beats every other candidate's overhead.
    let regions = vec![
        region(GIB, 1, RegionKind::Conventional),
        region(2 * GIB, 512, RegionKind::Conventional),
        region(3 * GIB, 262144, RegionKind::Conventional),
    ];
    let (_, huge_pages, huge_waste) = evaluate_candidate(&regions, PageSize::Huge);
    let (_, large_pages, large_waste) = evaluate_candidate(&regions, PageSize::Large);
    let (_, normal_pages, normal_waste) = evaluate_candidate(&regions, PageSize::Normal);
    assert_eq!(huge_pages, 1);
    assert_eq!(huge_waste, 4096); // no trimmed bytes, one level-3 table
    assert_eq!(large_pages, 513);
    assert_eq!(large_waste, 3 * 4096);
    assert_eq!(normal_pages, 262657);
    assert_eq!(normal_waste, 517 * 4096);
    // achievable pages in 4 KiB equivalents never exceed the input total
    let input_total_4k: u64 = 1 + 512 + 262144;
    assert!(huge_pages * (GIB / KIB4) <= input_total_4k);
    assert!(large_pages * (MIB2 / KIB4) <= input_total_4k);
    assert!(normal_pages <= input_total_4k);
    assert_eq!(chosen_granularity(&regions), PageSize::Huge);
    let frames = get_frames(&regions);
    let sl: &[MyMemoryDescriptor] = &frames;
    assert_eq!(sl.len(), 1);
    assert_eq!(sl[0].phys_start, 3 * GIB);
    assert_eq!(sl[0].page_size, PageSize::Huge);
    assert_eq!(sl[0].page_count, 1);
}

#[test]
fn normal_selected_when_nothing_larger_fits() {
    // A single 4 KiB region unaligned to any larger boundary: only Normal
    // yields pages and must win despite its higher relative table overhead.
    let regions = vec![region(0x20_1000, 1, RegionKind::Conventional)];
    let (_, huge_pages, huge_waste) = evaluate_candidate(&regions, PageSize::Huge);
    let (_, large_pages, large_waste) = evaluate_candidate(&regions, PageSize::Large);
    let (_, normal_pages, normal_waste) = evaluate_candidate(&regions, PageSize::Normal);
    assert_eq!(huge_pages, 0);
    assert_eq!(large_pages, 0);
    assert_eq!(normal_pages, 1);
    assert_eq!(normal_waste, 3 * 4096);
    assert!(normal_waste > huge_waste && normal_waste > large_waste);
    assert_eq!(chosen_granularity(&regions), PageSize::Normal);
}

#[test]
fn selected_waste_not_above_other_eligible() {
    let regions = vec![
        region(GIB, 1, RegionKind::Conventional),
        region(2 * GIB, 512, RegionKind::Conventional),
        region(3 * GIB, 262144, RegionKind::Conventional),
    ];
    let (_, hp, hw) = evaluate_candidate(&regions, PageSize::Huge);
    let (_, lp, lw) = evaluate_candidate(&regions, PageSize::Large);
    let (_, np, nw) = evaluate_candidate(&regions, PageSize::Normal);
    let chosen = chosen_granularity(&regions);
    let chosen_waste = match chosen {
        PageSize::Huge => hw,
        PageSize::Large => lw,
        PageSize::Normal => nw,
    };
    if hp > 0 {
        assert!(chosen_waste <= hw);
    }
    if lp > 0 {
        assert!(chosen_waste <= lw);
    }
    if np > 0 {
        assert!(chosen_waste <= nw);
    }
}

fn small_allocator(frames: u64) -> PhysFrameAllocator {
    let mut v: Vec<u64> = Vec::new();
    let mut i: u64 = 0;
    while i < frames {
        v.push(0x40_0000 + i * KIB4);
        i += 1;
    }
    PhysFrameAllocator::new(v)
}

#[test]
fn contiguous_mapping_walks_in_order() {
    // Map 3 contiguous pages and walk forward: the leaves appear in order
    // with no gaps.
    let mut alloc = small_allocator(16);
    let root = alloc.allocate_frame().unwrap();
    let mut pt = PageTables::new(root);
    let v = 0x20_0000u64;
    let p = 0x80_0000u64;
    mmap(&mut pt, &mut alloc, v, p, 3, PageSize::Normal, rw_nx()).unwrap();
    for i in 0..3u64 {
        let (addr, size, flags) = lookup(&pt, v + i * KIB4).expect("mapped page");
        assert_eq!(addr, p + i * KIB4);
        assert_eq!(size, PageSize::Normal);
        assert!(flags.writable && flags.no_execute);
    }
    assert!(lookup(&pt, v + 3 * KIB4).is_none());
    assert!(lookup(&pt, v - KIB4).is_none());
}

#[test]
fn remapping_same_page_is_rejected() {
    // Idempotence is explicitly not guaranteed: the second mapping of the
    // same virtual page must be rejected, never silently overwritten.
    let mut alloc = small_allocator(16);
    let root = alloc.allocate_frame().unwrap();
    let mut pt = PageTables::new(root);
    let v = 0x20_0000u64;
    map_page(&mut pt, &mut alloc, v, 0x80_0000, PageSize::Normal, rw_nx()).unwrap();
    let again = map_page(&mut pt, &mut alloc, v, 0x90_0000, PageSize::Normal, rw_nx());
    assert_eq!(again, Err(MapError::AlreadyMapped));
    // the old translation is untouched
    let (addr, _, _) = lookup(&pt, v).unwrap();
    assert_eq!(addr, 0x80_0000);
}

#[test]
fn huge_leaf_covers_its_whole_span() {
    let mut alloc = small_allocator(16);
    let root = alloc.allocate_frame().unwrap();
    let mut pt = PageTables::new(root);
    mmap(&mut pt, &mut alloc, GIB, 2 * GIB, 1, PageSize::Huge, rw_nx()).unwrap();
    let (addr, size, _) = lookup(&pt, GIB).unwrap();
    assert_eq!(addr, 2 * GIB);
    assert_eq!(size, PageSize::Huge);
    // any address inside the gigabyte hits the same leaf
    let (addr2, size2, _) = lookup(&pt, GIB + 0x123_000).unwrap();
    assert_eq!(addr2, 2 * GIB);
    assert_eq!(size2, PageSize::Huge);
    assert!(lookup(&pt, 2 * GIB).is_none());
}

#[test]
fn large_leaf_mapping() {
    let mut alloc = small_allocator(16);
    let root = alloc.allocate_frame().unwrap();
    let mut pt = PageTables::new(root);
    mmap(&mut pt, &mut alloc, 4 * MIB2, 8 * MIB2, 2, PageSize::Large, rw_nx()).unwrap();
    let (a0, s0, _) = lookup(&pt, 4 * MIB2).unwrap();
    assert_eq!((a0, s0), (8 * MIB2, PageSize::Large));
    let (a1, s1, _) = lookup(&pt, 5 * MIB2).unwrap();
    assert_eq!((a1, s1), (9 * MIB2, PageSize::Large));
    assert!(lookup(&pt, 6 * MIB2).is_none());
}

#[test]
fn back_to_back_ranges_leave_no_virtual_gap() {
    // 3 pages from two disjoint physical ranges, placed back-to-back at V:
    // V, V+1, V+2 map to the supplied frames in order.
    let mut alloc = small_allocator(16);
    let root = alloc.allocate_frame().unwrap();
    let mut pt = PageTables::new(root);
    let v = 0x20_0000u64;
    let ranges = vec![
        FrameRange { start: 0x1_0000, pages: 2 },
        FrameRange { start: 0x3_0000, pages: 1 },
    ];
    let placed = ranges_map_to(&mut pt, &mut alloc, v, &ranges, PageSize::Normal, rw_nx())
        .unwrap();
    assert_eq!(placed.start, v);
    assert_eq!(placed.end, v + 2 * KIB4);
    assert_eq!(lookup(&pt, v).unwrap().0, 0x1_0000);
    assert_eq!(lookup(&pt, v + KIB4).unwrap().0, 0x1_1000);
    assert_eq!(lookup(&pt, v + 2 * KIB4).unwrap().0, 0x3_0000);
    assert!(lookup(&pt, v + 3 * KIB4).is_none());
}

#[test]
fn zero_ranges_rejected_before_any_write() {
    let mut alloc = small_allocator(16);
    let root = alloc.allocate_frame().unwrap();
    let mut pt = PageTables::new(root);
    let used_before = alloc.used();
    let tables_before = pt.table_count();
    let ranges: Vec<FrameRange> = Vec::new();
    let r = ranges_map_to(&mut pt, &mut alloc, 0x20_0000, &ranges, PageSize::Normal, rw_nx());
    assert_eq!(r, Err(MapError::EmptyRanges));
    assert_eq!(alloc.used(), used_before);
    assert_eq!(pt.table_count(), tables_before);
    assert!(lookup(&pt, 0x20_0000).is_none());
}

#[test]
fn exhausted_allocator_is_fatal_error() {
    let mut alloc = small_allocator(2);
    let root = alloc.allocate_frame().unwrap();
    let mut pt = PageTables::new(root);
    // one frame left, but a Normal mapping needs three intermediate tables
    let r = mmap(&mut pt, &mut alloc, 0x20_0000, 0x80_0000, 1, PageSize::Normal, rw_nx());
    assert_eq!(r, Err(MapError::AllocatorExhausted));
}

#[test]
fn next_page_and_ranges() {
    assert_eq!(next_page(0x20_0000, PageSize::Normal), 0x20_1000);
    assert_eq!(next_page(GIB, PageSize::Huge), 2 * GIB);
    let r = region(0x5000, 3, RegionKind::KernelCode);
    let fr = mem_desc2frame_range(&r);
    assert_eq!(fr.start, 0x5000);
    assert_eq!(fr.pages, 3);
}

fn boot_map() -> Vec<MemoryRegion> {
    vec![
        region(0x20_0000, 1, RegionKind::KernelCode),
        region(0x30_0000, 2, RegionKind::KernelData),
        region(0x7000_0000, 4, RegionKind::Mmio),
        region(GIB, 16, RegionKind::Conventional),
    ]
}

#[test]
fn orchestration_builds_full_address_space() {
    let regions = boot_map();
    let setup = set_up_paging(&regions).expect("setup succeeds");
    assert_eq!(setup.root_addr, GIB);
    // every supplied frame is visible in the physical window, in order
    for i in 0..16u64 {
        let (addr, size, flags) = lookup(&setup.tables, MAPPED_PHYS_MEMORY + i * KIB4).unwrap();
        assert_eq!(addr, GIB + i * KIB4);
        assert_eq!(size, PageSize::Normal);
        assert!(flags.writable && flags.no_execute);
    }
    // kernel code at the kernel-land base, execute-permitted
    let (caddr, _, cflags) = lookup(&setup.tables, KERNELLAND).unwrap();
    assert_eq!(caddr, 0x20_0000);
    assert!(!cflags.writable && !cflags.no_execute);
    // kernel data immediately after the last code page
    let (d0, _, dflags) = lookup(&setup.tables, KERNELLAND + KIB4).unwrap();
    assert_eq!(d0, 0x30_0000);
    assert!(dflags.writable && dflags.no_execute);
    let (d1, _, _) = lookup(&setup.tables, KERNELLAND + 2 * KIB4).unwrap();
    assert_eq!(d1, 0x30_1000);
    assert!(lookup(&setup.tables, KERNELLAND + 3 * KIB4).is_none());
    // the MMIO region got no dedicated alias
    assert!(lookup(&setup.tables, 0x7000_0000).is_none());
    // spent frames reported: root + 3 window tables + 3 kernel-land tables
    assert_eq!(setup.allocator.used(), 7);
    assert_eq!(setup.tables.table_count(), 7);
    assert_eq!(setup.allocator.supply_len(), 16);
}

#[test]
fn orchestration_without_usable_memory_fails() {
    let regions = vec![region(0x20_0000, 1, RegionKind::KernelCode)];
    let r = set_up_paging(&regions);
    assert!(matches!(r, Err(MapError::AllocatorExhausted)));
}

#[test]
fn orchestration_without_kernel_code_fails() {
    let regions = vec![
        region(GIB, 16, RegionKind::Conventional),
        region(0x30_0000, 2, RegionKind::KernelData),
    ];
    let r = set_up_paging(&regions);
    assert!(matches!(r, Err(MapError::EmptyRanges)));
}
