//! Address-space orchestrator: filter the firmware map to usable memory,
//! classify it, expand the winning frame list into the allocator's supply,
//! build the table tree (physical window, kernel code, kernel data, in that
//! order) and hand back the finished tree, its root address and the
//! allocator, whose spent prefix names the frames now permanently dedicated
//! to paging structures. Installing the root in the paging-root register is
//! the caller's one irreversible step and happens outside this module.

use vstd::prelude::*;
use crate::classifier::{get_frames, spec_chosen, spec_frames};
use crate::frame_alloc::PhysFrameAllocator;
use crate::frame_vec::{hv_as_slice, hv_contents};
use crate::mapping::{
    frames_map_to, lemma_ranges_pages_nonneg, next_page, ranges_map_to, spec_map_frames,
    spec_map_ranges, spec_ranges_pages, FrameRange,
};
use crate::page_size::{spec_size, PageSize};
use crate::paging::{
    arena_wf, supply_ok, zero_table, ArenaView, MapError, MapOutcome, PageFlags, PageTables,
    PHYS_CEILING,
};
use crate::region::{region_wf, MemoryRegion, MyMemoryDescriptor, RegionKind};

verus! {

/// Base of kernel-land: where kernel code, then kernel data, are placed.
pub const KERNELLAND: u64 = 0x8000_0000_0000;

/// Base of the linear window over all usable physical memory.
pub const MAPPED_PHYS_MEMORY: u64 = 0x8800_0000_0000;

/// The regions of one category, in map order.
pub open spec fn spec_of_kind(rs: Seq<MemoryRegion>, kind: RegionKind) -> Seq<MemoryRegion>
    decreases rs.len(),
{
    if rs.len() == 0 {
        Seq::empty()
    } else {
        let rest = spec_of_kind(rs.drop_last(), kind);
        if rs.last().kind == kind {
            rest.push(rs.last())
        } else {
            rest
        }
    }
}

/// The frame runs of one category, in map order.
pub open spec fn spec_ranges_of(rs: Seq<MemoryRegion>, kind: RegionKind) -> Seq<FrameRange>
    decreases rs.len(),
{
    if rs.len() == 0 {
        Seq::empty()
    } else {
        let rest = spec_ranges_of(rs.drop_last(), kind);
        if rs.last().kind == kind {
            rest.push(FrameRange { start: rs.last().phys_start, pages: rs.last().page_count })
        } else {
            rest
        }
    }
}

/// Normal-size frames one classified run expands to.
pub open spec fn spec_count4k(f: MyMemoryDescriptor) -> int {
    f.page_count * (spec_size(f.page_size) / 0x1000)
}

/// One classified run as individual Normal-size frame addresses.
pub open spec fn spec_run(f: MyMemoryDescriptor) -> Seq<u64> {
    Seq::new(spec_count4k(f) as nat, |i: int| (f.phys_start + i * 0x1000) as u64)
}

/// The whole frame list expanded into the allocator's supply.
pub open spec fn spec_expand(fs: Seq<MyMemoryDescriptor>) -> Seq<u64>
    decreases fs.len(),
{
    if fs.len() == 0 {
        Seq::empty()
    } else {
        spec_expand(fs.drop_last()) + spec_run(fs.last())
    }
}

/// The winning frame list for a firmware map's usable regions.
pub open spec fn spec_usable_frames(rs: Seq<MemoryRegion>) -> Seq<MyMemoryDescriptor> {
    spec_frames(
        spec_of_kind(rs, RegionKind::Conventional),
        spec_chosen(spec_of_kind(rs, RegionKind::Conventional)),
    )
}

/// The allocator supply derived from a firmware map.
pub open spec fn spec_supply(rs: Seq<MemoryRegion>) -> Seq<u64> {
    spec_expand(spec_usable_frames(rs))
}

/// Physical side conditions of a real firmware map, stated of the derived
/// supply: every usable frame is page-aligned, lies inside the physical
/// address width, no frame appears twice (regions do not overlap), each
/// classified run's expansion stays inside the address width, and the
/// window over all of it fits the canonical address span.
pub open spec fn supply_fit(rs: Seq<MemoryRegion>) -> bool {
    let s = spec_supply(rs);
    let fs = spec_usable_frames(rs);
    &&& s.len() + 1 <= usize::MAX
    &&& forall|k: int|
        0 <= k < s.len() ==> ((#[trigger] s[k]) as int) % 0x1000 == 0 && s[k] < PHYS_CEILING
    &&& forall|k1: int, k2: int| 0 <= k1 < k2 < s.len() ==> s[k1] != s[k2]
    &&& forall|k: int|
        0 <= k < fs.len() ==> (#[trigger] fs[k]).phys_start + spec_count4k(fs[k]) * 0x1000
            <= PHYS_CEILING
    &&& MAPPED_PHYS_MEMORY + s.len() * 0x1000 <= 0x1_0000_0000_0000
}

/// The virtual span kernel code and data need, one spare page included,
/// fits below the physical window.
pub open spec fn kernel_span_fit(rs: Seq<MemoryRegion>) -> bool {
    KERNELLAND + (spec_ranges_pages(spec_ranges_of(rs, RegionKind::KernelCode))
        + spec_ranges_pages(spec_ranges_of(rs, RegionKind::KernelData)) + 1) * 0x1000
        <= MAPPED_PHYS_MEMORY
}

/// What orchestration computes, step by step: the supply's first frame
/// becomes the root table; the whole supply is mapped into the physical
/// window one Normal page per frame, writable and no-execute; kernel code
/// is placed from the kernel-land base on, execute-permitted; kernel data
/// follows one page after the last code page, writable and no-execute. A
/// missing supply is exhaustion; a missing code or data category is the
/// empty-ranges error of the back-to-back mode.
pub open spec fn spec_set_up(rs: Seq<MemoryRegion>) -> MapOutcome {
    let s = spec_supply(rs);
    if s.len() == 0 {
        MapOutcome {
            arena: ArenaView { tables: Seq::empty() },
            consumed: 0,
            err: Some(MapError::AllocatorExhausted),
        }
    } else {
        let a0 = ArenaView { tables: seq![zero_table(4, s[0])] };
        let data_fl = PageFlags { writable: true, no_execute: true };
        let code_fl = PageFlags { writable: false, no_execute: false };
        let o1 = spec_map_frames(a0, s.skip(1), MAPPED_PHYS_MEMORY, s, PageSize::Normal, data_fl);
        if o1.err is Some {
            MapOutcome { arena: o1.arena, consumed: 1 + o1.consumed, err: o1.err }
        } else {
            let code_rs = spec_ranges_of(rs, RegionKind::KernelCode);
            if code_rs.len() == 0 {
                MapOutcome {
                    arena: o1.arena,
                    consumed: 1 + o1.consumed,
                    err: Some(MapError::EmptyRanges),
                }
            } else {
                let o2 = spec_map_ranges(
                    o1.arena,
                    s.skip(1 + o1.consumed),
                    KERNELLAND,
                    code_rs,
                    PageSize::Normal,
                    code_fl,
                );
                if o2.err is Some {
                    MapOutcome {
                        arena: o2.arena,
                        consumed: 1 + o1.consumed + o2.consumed,
                        err: o2.err,
                    }
                } else {
                    let cp = spec_ranges_pages(code_rs);
                    let code_end = if cp > 0 {
                        KERNELLAND + (cp - 1) * 0x1000
                    } else {
                        KERNELLAND as int
                    };
                    let data_start = (code_end + 0x1000) as u64;
                    let data_rs = spec_ranges_of(rs, RegionKind::KernelData);
                    if data_rs.len() == 0 {
                        MapOutcome {
                            arena: o2.arena,
                            consumed: 1 + o1.consumed + o2.consumed,
                            err: Some(MapError::EmptyRanges),
                        }
                    } else {
                        let o3 = spec_map_ranges(
                            o2.arena,
                            s.skip(1 + o1.consumed + o2.consumed),
                            data_start,
                            data_rs,
                            PageSize::Normal,
                            data_fl,
                        );
                        MapOutcome {
                            arena: o3.arena,
                            consumed: 1 + o1.consumed + o2.consumed + o3.consumed,
                            err: o3.err,
                        }
                    }
                }
            }
        }
    }
}

/// The finished transition state: the table tree, the root table's physical
/// address (the value for the paging-root register), and the allocator whose
/// spent prefix is the set of frames now permanently holding tables.
pub struct PagingSetup {
    pub tables: PageTables,
    pub root_addr: u64,
    pub allocator: PhysFrameAllocator,
}

/// Filter the map to one category.
fn regions_of_kind(regions: &Vec<MemoryRegion>, kind: RegionKind) -> (r: Vec<MemoryRegion>)
    ensures
        r@ == spec_of_kind(regions@, kind),
{
    let mut out: Vec<MemoryRegion> = Vec::new();
    let n: usize = regions.len();
    let mut i: usize = 0;
    while i < n
        invariant
            i <= n,
            n == regions@.len(),
            out@ == spec_of_kind(regions@.take(i as int), kind),
        decreases n - i,
    {
        let reg: MemoryRegion = regions[i];
        proof {
            assert(regions@.take(i as int + 1).drop_last() =~= regions@.take(i as int));
            assert(regions@.take(i as int + 1).last() == regions@[i as int]);
        }
        match reg.kind == kind {
            true => {
                out.push(reg);
            },
            false => {},
        }
        i = i + 1;
    }
    proof {
        assert(regions@.take(n as int) =~= regions@);
    }
    out
}

/// The frame runs of one category, for the back-to-back mapping modes.
fn ranges_of_kind(regions: &Vec<MemoryRegion>, kind: RegionKind) -> (r: Vec<FrameRange>)
    ensures
        r@ == spec_ranges_of(regions@, kind),
{
    let mut out: Vec<FrameRange> = Vec::new();
    let n: usize = regions.len();
    let mut i: usize = 0;
    while i < n
        invariant
            i <= n,
            n == regions@.len(),
            out@ == spec_ranges_of(regions@.take(i as int), kind),
        decreases n - i,
    {
        let reg: MemoryRegion = regions[i];
        proof {
            assert(regions@.take(i as int + 1).drop_last() =~= regions@.take(i as int));
            assert(regions@.take(i as int + 1).last() == regions@[i as int]);
        }
        match reg.kind == kind {
            true => {
                out.push(FrameRange { start: reg.phys_start, pages: reg.page_count });
            },
            false => {},
        }
        i = i + 1;
    }
    proof {
        assert(regions@.take(n as int) =~= regions@);
    }
    out
}

/// Expand the winning frame list into individual Normal-size frames, the
/// allocator's supply.
fn expand_frames(frames: &heapless::Vec<MyMemoryDescriptor, 64>) -> (r: Vec<u64>)
    requires
        spec_expand(hv_contents(frames)).len() + 1 <= usize::MAX,
        forall|k: int|
            0 <= k < hv_contents(frames).len() ==> (#[trigger] hv_contents(
                frames,
            )[k]).phys_start + spec_count4k(hv_contents(frames)[k]) * 0x1000 <= PHYS_CEILING,
        forall|k: int| 0 <= k < hv_contents(frames).len() ==> spec_count4k(#[trigger] hv_contents(frames)[k]) >= 0,
    ensures
        r@ == spec_expand(hv_contents(frames)),
{
    let ghost fs = hv_contents(frames);
    let sl: &[MyMemoryDescriptor] = hv_as_slice(frames);
    let mut out: Vec<u64> = Vec::new();
    let n: usize = sl.len();
    let mut i: usize = 0;
    while i < n
        invariant
            fs == hv_contents(frames),
            sl@ == fs,
            i <= n,
            n == fs.len(),
            out@ == spec_expand(fs.take(i as int)),
            spec_expand(fs).len() + 1 <= usize::MAX,
            forall|k: int|
                0 <= k < fs.len() ==> (#[trigger] fs[k]).phys_start + spec_count4k(fs[k]) * 0x1000
                    <= PHYS_CEILING,
        decreases n - i,
    {
        let f: MyMemoryDescriptor = sl[i];
        proof {
            assert(fs.take(i as int + 1).drop_last() =~= fs.take(i as int));
            assert(fs.take(i as int + 1).last() == fs[i as int]);
            lemma_expand_prefix_len(fs, i as int + 1);
            lemma_expand_prefix_len(fs, i as int);
        }
        let modifier: u64 = f.page_size.size() / 4096;
        let count: u64 = f.page_count * modifier;
        proof {
            assert(count == spec_count4k(fs[i as int]));
        }
        let mut j: u64 = 0;
        while j < count
            invariant
                f == fs[i as int],
                0 <= i < fs.len(),
                count == spec_count4k(fs[i as int]),
                f.phys_start + count * 0x1000 <= PHYS_CEILING,
                0 <= j <= count,
                out@ == spec_expand(fs.take(i as int)) + spec_run(fs[i as int]).take(j as int),
                out@.len() + 1 <= usize::MAX,
                out@.len() == spec_expand(fs.take(i as int)).len() + j,
                spec_expand(fs.take(i as int)).len() + count + 1 <= usize::MAX,
            decreases count - j,
        {
            proof {
                assert(f.phys_start + j * 0x1000 + 0x1000 <= f.phys_start + count * 0x1000)
                    by (nonlinear_arith)
                    requires
                        0 <= j < count,
                ;
                assert(spec_run(fs[i as int])[j as int] == (f.phys_start + j * 0x1000) as u64);
                assert(spec_run(fs[i as int]).take(j as int + 1) =~= spec_run(
                    fs[i as int],
                ).take(j as int).push(spec_run(fs[i as int])[j as int]));
            }
            out.push(f.phys_start + j * 4096);
            j = j + 1;
        }
        proof {
            assert(spec_run(fs[i as int]).take(count as int) =~= spec_run(fs[i as int]));
            assert(spec_expand(fs.take(i as int + 1)) == spec_expand(fs.take(i as int))
                + spec_run(fs[i as int]));
        }
        i = i + 1;
    }
    proof {
        assert(fs.take(n as int) =~= fs);
    }
    out
}

/// Any prefix of the expansion is a prefix of the whole expansion.
proof fn lemma_expand_prefix_len(fs: Seq<MyMemoryDescriptor>, i: int)
    requires
        0 <= i <= fs.len(),
        forall|k: int| 0 <= k < fs.len() ==> spec_count4k(#[trigger] fs[k]) >= 0,
    ensures
        spec_expand(fs.take(i)).len() <= spec_expand(fs).len(),
        i < fs.len() ==> spec_expand(fs.take(i)).len() + spec_count4k(fs[i]) <= spec_expand(
            fs,
        ).len(),
    decreases fs.len() - i,
{
    if i == fs.len() {
        assert(fs.take(i) =~= fs);
    } else {
        lemma_expand_prefix_len(fs, i + 1);
        assert(fs.take(i + 1).drop_last() =~= fs.take(i));
        assert(fs.take(i + 1).last() == fs[i]);
        assert(spec_expand(fs.take(i + 1)) == spec_expand(fs.take(i)) + spec_run(fs[i]));
        if i + 1 < fs.len() {
            assert(spec_count4k(fs[i + 1]) >= 0);
        }
    }
}

/// Every region of one category inherits the whole map's bounds.
proof fn lemma_of_kind_wf(rs: Seq<MemoryRegion>, kind: RegionKind)
    requires
        forall|j: int| 0 <= j < rs.len() ==> region_wf(#[trigger] rs[j]),
    ensures
        forall|k: int|
            0 <= k < spec_of_kind(rs, kind).len() ==> region_wf(#[trigger] spec_of_kind(rs, kind)[k]),
    decreases rs.len(),
{
    if rs.len() > 0 {
        assert(forall|j: int|
            0 <= j < rs.drop_last().len() ==> region_wf(#[trigger] rs.drop_last()[j]));
        lemma_of_kind_wf(rs.drop_last(), kind);
        let sub = spec_of_kind(rs, kind);
        let rest = spec_of_kind(rs.drop_last(), kind);
        assert forall|k: int| 0 <= k < sub.len() implies region_wf(#[trigger] sub[k]) by {
            if rs.last().kind == kind && k == sub.len() - 1 {
                assert(sub[k] == rs.last());
                assert(region_wf(rs[rs.len() - 1]));
            } else {
                assert(sub[k] == rest[k]);
            }
        }
    }
}

/// Every frame run of one category is page-aligned and inside the physical
/// address width.
proof fn lemma_ranges_of_props(rs: Seq<MemoryRegion>, kind: RegionKind)
    requires
        forall|j: int|
            0 <= j < rs.len() ==> region_wf(#[trigger] rs[j]) && (rs[j].phys_start as int) % 0x1000
                == 0,
    ensures
        forall|k: int|
            0 <= k < spec_ranges_of(rs, kind).len() ==> ((#[trigger] spec_ranges_of(
                rs,
                kind,
            )[k]).start as int) % 0x1000 == 0 && spec_ranges_of(rs, kind)[k].start
                + spec_ranges_of(rs, kind)[k].pages * 0x1000 <= PHYS_CEILING,
    decreases rs.len(),
{
    if rs.len() > 0 {
        assert(forall|j: int|
            0 <= j < rs.drop_last().len() ==> region_wf(#[trigger] rs.drop_last()[j]) && (
            rs.drop_last()[j].phys_start as int) % 0x1000 == 0);
        lemma_ranges_of_props(rs.drop_last(), kind);
        let sub = spec_ranges_of(rs, kind);
        let rest = spec_ranges_of(rs.drop_last(), kind);
        assert forall|k: int|
            0 <= k < sub.len() implies ((#[trigger] sub[k]).start as int) % 0x1000 == 0 && sub[k].start
            + sub[k].pages * 0x1000 <= PHYS_CEILING by {
            if rs.last().kind == kind && k == sub.len() - 1 {
                assert(region_wf(rs[rs.len() - 1]) && (rs[rs.len() - 1].phys_start as int) % 0x1000
                    == 0);
                assert(sub[k].start == rs.last().phys_start && sub[k].pages
                    == rs.last().page_count);
            } else {
                assert(sub[k] == rest[k]);
            }
        }
    }
}

/// Run the whole transition computation over the firmware map: classify
/// usable memory, expand the winning frames into the allocator supply, take
/// the first frame as the root table, map the physical window, kernel code
/// and kernel data in order, and report the finished tree, the root address
/// and the allocator. Behaves exactly as `spec_set_up`; on success the tree
/// satisfies the arena invariant, the reported root is the supply's first
/// frame, and the allocator's cursor names exactly the frames spent on
/// tables (the root included).
pub fn set_up_paging(regions: &Vec<MemoryRegion>) -> (r: Result<PagingSetup, MapError>)
    requires
        forall|j: int|
            0 <= j < regions@.len() ==> region_wf(#[trigger] regions@[j]) && (
            regions@[j].phys_start as int) % 0x1000 == 0,
        spec_of_kind(regions@, RegionKind::Conventional).len() <= 64,
        supply_fit(regions@),
        kernel_span_fit(regions@),
    ensures
        ({
            let o = spec_set_up(regions@);
            &&& (r is Ok <==> o.err is None)
            &&& (r is Err ==> o.err == Some(r->Err_0))
            &&& (r is Ok ==> r->Ok_0.tables@ == o.arena && arena_wf(r->Ok_0.tables@)
                && r->Ok_0.root_addr == spec_supply(regions@)[0] && r->Ok_0.allocator.supply()
                == spec_supply(regions@) && r->Ok_0.allocator.cursor() == o.consumed
                && r->Ok_0.allocator.inv() && supply_ok(
                r->Ok_0.tables@,
                r->Ok_0.allocator.remaining(),
            ))
        }),
{
    let ghost s = spec_supply(regions@);
    let ghost fs = spec_usable_frames(regions@);
    proof {
        lemma_of_kind_wf(regions@, RegionKind::Conventional);
        assert forall|k: int| 0 <= k < fs.len() implies spec_count4k(#[trigger] fs[k]) >= 0 by {
            let f = fs[k];
            match f.page_size {
                PageSize::Huge => {},
                PageSize::Large => {},
                PageSize::Normal => {},
            }
        }
    }
    let conventional = regions_of_kind(regions, RegionKind::Conventional);
    let frames = get_frames(&conventional);
    proof {
        assert(hv_contents(&frames) == fs);
    }
    let supply = expand_frames(&frames);
    let targets = expand_frames(&frames);
    proof {
        assert(supply@ == s && targets@ == s);
    }
    let mut allocator = PhysFrameAllocator::new(supply);
    let root_addr: u64 = match allocator.allocate_frame() {
        None => {
            proof {
                assert(s.len() == 0);
            }
            return Err(MapError::AllocatorExhausted);
        },
        Some(a) => a,
    };
    proof {
        assert(s.len() > 0 && root_addr == s[0]);
        assert((s[0] as int) % 0x1000 == 0 && s[0] < PHYS_CEILING);
    }
    let mut tables = PageTables::new(root_addr);
    let ghost a0 = tables@;
    let data_fl = PageFlags { writable: true, no_execute: true };
    let code_fl = PageFlags { writable: false, no_execute: false };
    proof {
        assert(allocator.remaining() =~= s.skip(1));
        assert(supply_ok(a0, s.skip(1))) by {
            assert forall|k: int|
                0 <= k < s.skip(1).len() implies ((#[trigger] s.skip(1)[k]) as int) % 0x1000 == 0
                && s.skip(1)[k] < PHYS_CEILING && !crate::paging::has_addr(a0, s.skip(1)[k]) by {
                assert(s.skip(1)[k] == s[k + 1]);
                assert(s[0] != s[k + 1]);
                assert(a0.tables.len() == 1 && a0.tables[0].addr == s[0]);
            }
        }
        lemma_ranges_pages_nonneg(spec_ranges_of(regions@, RegionKind::KernelCode));
        lemma_ranges_pages_nonneg(spec_ranges_of(regions@, RegionKind::KernelData));
    }
    let ghost o1 = spec_map_frames(a0, s.skip(1), MAPPED_PHYS_MEMORY, s, PageSize::Normal,
        data_fl);
    match frames_map_to(&mut tables, &mut allocator, MAPPED_PHYS_MEMORY, &targets,
        PageSize::Normal, data_fl) {
        Err(e) => {
            return Err(e);
        },
        Ok(_window) => {},
    }
    proof {
        assert(tables@ == o1.arena && allocator.cursor() == 1 + o1.consumed);
        assert(allocator.remaining() =~= s.skip(1 + o1.consumed));
    }
    let code_ranges = ranges_of_kind(regions, RegionKind::KernelCode);
    let data_ranges = ranges_of_kind(regions, RegionKind::KernelData);
    let ghost code_rs = spec_ranges_of(regions@, RegionKind::KernelCode);
    let ghost data_rs = spec_ranges_of(regions@, RegionKind::KernelData);
    let ghost cp = spec_ranges_pages(code_rs);
    let ghost dp = spec_ranges_pages(data_rs);
    proof {
        lemma_ranges_of_props(regions@, RegionKind::KernelCode);
        lemma_ranges_of_props(regions@, RegionKind::KernelData);
        assert(KERNELLAND + cp * 0x1000 <= 0x1_0000_0000_0000) by (nonlinear_arith)
            requires
                KERNELLAND + (cp + dp + 1) * 0x1000 <= MAPPED_PHYS_MEMORY,
                cp >= 0,
                dp >= 0,
        ;
    }
    let ghost o2 = spec_map_ranges(o1.arena, s.skip(1 + o1.consumed), KERNELLAND, code_rs,
        PageSize::Normal, code_fl);
    let last: crate::mapping::PageRange = match ranges_map_to(&mut tables, &mut allocator,
        KERNELLAND, &code_ranges, PageSize::Normal, code_fl) {
        Err(e) => {
            return Err(e);
        },
        Ok(rg) => rg,
    };
    proof {
        assert(code_rs.len() > 0);
        assert(tables@ == o2.arena && allocator.cursor() == 1 + o1.consumed + o2.consumed);
        assert(allocator.remaining() =~= s.skip(1 + o1.consumed + o2.consumed));
        assert((last.end as int) % 0x1000 == 0) by {
            if cp > 0 {
                assert(last.end as int == KERNELLAND + (cp - 1) * 0x1000);
                vstd::arithmetic::div_mod::lemma_mod_multiples_vanish(cp - 1, KERNELLAND as int,
                    0x1000);
                assert(0x1000 * (cp - 1) == (cp - 1) * 0x1000) by (nonlinear_arith);
            }
        }
        assert(last.end + 0x1000 + dp * 0x1000 <= MAPPED_PHYS_MEMORY) by (nonlinear_arith)
            requires
                KERNELLAND + (cp + dp + 1) * 0x1000 <= MAPPED_PHYS_MEMORY,
                cp >= 0,
                dp >= 0,
                last.end as int == if cp > 0 {
                    KERNELLAND + (cp - 1) * 0x1000
                } else {
                    KERNELLAND as int
                },
        ;
    }
    let data_start: u64 = next_page(last.end, PageSize::Normal);
    let ghost o3 = spec_map_ranges(o2.arena, s.skip(1 + o1.consumed + o2.consumed), data_start,
        data_rs, PageSize::Normal, data_fl);
    match ranges_map_to(&mut tables, &mut allocator, data_start, &data_ranges, PageSize::Normal,
        data_fl) {
        Err(e) => {
            return Err(e);
        },
        Ok(_data) => {},
    }
    proof {
        assert(data_rs.len() > 0);
        assert(tables@ == o3.arena && allocator.cursor() == 1 + o1.consumed + o2.consumed
            + o3.consumed);
    }
    Ok(PagingSetup { tables, root_addr, allocator })
}

} // verus!
