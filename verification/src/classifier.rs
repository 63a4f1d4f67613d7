//! Frame classifier and granularity optimizer: turns usable memory regions
//! into aligned frame descriptors for each candidate granularity and picks
//! the granularity with the least total waste.
//!
//! Waste accounting: a region that yields at least one page at a granularity
//! wastes the bytes trimmed at the front (alignment) and at the back (floor
//! division remainder). A region that yields no page at a granularity is
//! excluded from that candidate's totals entirely. On top of the trimmed
//! bytes, each candidate pays for the table frames needed to index its
//! pages, converted to Normal-page bytes. A candidate that achieves no pages
//! at all is never selected while another achieves some. Exact ties are
//! broken Large over Huge over Normal.

use vstd::prelude::*;
use vstd::arithmetic::div_mod::{
    lemma_fundamental_div_mod,
    lemma_mod_multiples_basic,
};
use vstd::arithmetic::mul::lemma_mul_inequality;
use crate::addr_align::{align_up, spec_align_up};
use crate::frame_vec::{hv_contents, hv_new, hv_push};
use crate::page_size::{spec_page_table_usage, spec_size, page_table_usage, PageSize};
use crate::region::{region_wf, MemoryRegion, MyMemoryDescriptor, ADDR_LIMIT};

verus! {

/// Last byte of a region's extent.
pub open spec fn region_last(r: MemoryRegion) -> int {
    r.phys_start + r.page_count * 4096 - 1
}

/// Physical start of the region rounded up to the granularity.
pub open spec fn spec_aligned_start(r: MemoryRegion, g: PageSize) -> int {
    spec_align_up(r.phys_start as int, spec_size(g))
}

/// Pages of granularity `g` the region can hold after alignment.
pub open spec fn spec_frame_pages(r: MemoryRegion, g: PageSize) -> int {
    if r.page_count == 0 {
        0
    } else if spec_aligned_start(r, g) > region_last(r) {
        0
    } else {
        (region_last(r) - spec_aligned_start(r, g) + 1) / spec_size(g)
    }
}

/// Bytes of the region trimmed away at granularity `g`: front alignment trim
/// plus back remainder trim; zero when the region contributes no page.
pub open spec fn spec_frame_waste(r: MemoryRegion, g: PageSize) -> int {
    if spec_frame_pages(r, g) == 0 {
        0
    } else {
        r.page_count * 4096 - spec_frame_pages(r, g) * spec_size(g)
    }
}

/// The aligned frame run the region yields at granularity `g`, if any. The
/// virtual start moves by the same delta as the physical start, preserving
/// the region's physical/virtual offset.
pub open spec fn spec_frame(r: MemoryRegion, g: PageSize) -> Option<MyMemoryDescriptor> {
    if spec_frame_pages(r, g) == 0 {
        None
    } else {
        Some(
            MyMemoryDescriptor {
                phys_start: spec_aligned_start(r, g) as u64,
                virt_start: (r.virt_start + (spec_aligned_start(r, g) - r.phys_start)) as u64,
                page_size: g,
                page_count: spec_frame_pages(r, g) as u64,
            },
        )
    }
}

/// Sum of achievable pages over all regions, at granularity `g`.
pub open spec fn spec_total_pages(rs: Seq<MemoryRegion>, g: PageSize) -> int
    decreases rs.len(),
{
    if rs.len() == 0 {
        0
    } else {
        spec_total_pages(rs.drop_last(), g) + spec_frame_pages(rs.last(), g)
    }
}

/// Sum of trimmed bytes over all regions, at granularity `g`.
pub open spec fn spec_align_waste(rs: Seq<MemoryRegion>, g: PageSize) -> int
    decreases rs.len(),
{
    if rs.len() == 0 {
        0
    } else {
        spec_align_waste(rs.drop_last(), g) + spec_frame_waste(rs.last(), g)
    }
}

/// Sum of the regions' own page counts (4 KiB units).
pub open spec fn spec_total_4k(rs: Seq<MemoryRegion>) -> int
    decreases rs.len(),
{
    if rs.len() == 0 {
        0
    } else {
        spec_total_4k(rs.drop_last()) + rs.last().page_count
    }
}

/// Total waste of one candidate granularity: trimmed bytes plus the table
/// overhead converted to Normal-page bytes.
pub open spec fn spec_candidate_waste(rs: Seq<MemoryRegion>, g: PageSize) -> int {
    spec_align_waste(rs, g) + spec_page_table_usage(g, spec_total_pages(rs, g)) * 4096
}

/// The frame runs a candidate keeps: one per region that yields pages.
pub open spec fn spec_frames(rs: Seq<MemoryRegion>, g: PageSize) -> Seq<MyMemoryDescriptor>
    decreases rs.len(),
{
    if rs.len() == 0 {
        Seq::empty()
    } else {
        spec_frames(rs.drop_last(), g) + match spec_frame(rs.last(), g) {
            Some(f) => seq![f],
            None => Seq::empty(),
        }
    }
}

/// A candidate is eligible while it achieves at least one page.
pub open spec fn spec_eligible(rs: Seq<MemoryRegion>, g: PageSize) -> bool {
    spec_total_pages(rs, g) > 0
}

/// Least-waste selection among the eligible candidates, ties broken Large
/// over Huge over Normal; Large when nothing is eligible.
pub open spec fn spec_pick(lp: int, lw: int, hp: int, hw: int, np: int, nw: int) -> PageSize {
    if lp > 0 && (hp == 0 || lw <= hw) && (np == 0 || lw <= nw) {
        PageSize::Large
    } else if hp > 0 && (np == 0 || hw <= nw) {
        PageSize::Huge
    } else if np > 0 {
        PageSize::Normal
    } else {
        PageSize::Large
    }
}

/// The granularity the classifier selects for the given usable regions.
pub open spec fn spec_chosen(rs: Seq<MemoryRegion>) -> PageSize {
    spec_pick(
        spec_total_pages(rs, PageSize::Large),
        spec_candidate_waste(rs, PageSize::Large),
        spec_total_pages(rs, PageSize::Huge),
        spec_candidate_waste(rs, PageSize::Huge),
        spec_total_pages(rs, PageSize::Normal),
        spec_candidate_waste(rs, PageSize::Normal),
    )
}

/// Per-region bounds: pages fit the extent, waste is the trimmed bytes, and
/// a yielded frame lies inside its region, aligned to the granularity.
pub proof fn lemma_frame_bounds(r: MemoryRegion, g: PageSize)
    requires
        region_wf(r),
    ensures
        0 <= spec_frame_pages(r, g),
        spec_frame_pages(r, g) * spec_size(g) <= r.page_count * 4096,
        spec_frame_pages(r, g) * 4096 <= r.page_count * 4096,
        0 <= spec_frame_waste(r, g) <= r.page_count * 4096,
        r.page_count > 0 ==> spec_aligned_start(r, g) % spec_size(g) == 0 && r.phys_start <= spec_aligned_start(r, g) < r.phys_start + spec_size(g),
        spec_frame(r, g) is Some ==> spec_frame_ok(r, g, spec_frame(r, g)->Some_0),
{
    let s = spec_size(g);
    let a = r.phys_start as int;
    assert(s == 0x1000 || s == 0x20_0000 || s == 0x4000_0000);
    if r.page_count > 0 {
        let al = spec_aligned_start(r, g);
        lemma_fundamental_div_mod(a + s - 1, s);
        lemma_mod_multiples_basic((a + s - 1) / s, s);
        lemma_mul_commute((a + s - 1) / s, s);
        assert(al % s == 0);
        assert(0 <= (a + s - 1) % s < s);
        assert(a <= al < a + s);
        if al <= region_last(r) {
            let span = region_last(r) - al + 1;
            let pages = spec_frame_pages(r, g);
            lemma_fundamental_div_mod(span, s);
            assert(pages == span / s);
            assert(0 <= span % s < s);
            assert(pages * s <= span) by {
                assert(span == s * (span / s) + span % s);
                lemma_mul_commute(pages, s);
            }
            assert(pages >= 0);
            assert(pages * 4096 <= pages * s) by {
                lemma_mul_inequality(4096, s, pages);
                lemma_mul_commute(pages, s);
                lemma_mul_commute(pages, 4096);
            }
            assert(span <= r.page_count * 4096);
        }
    }
}

proof fn lemma_mul_commute(x: int, y: int)
    ensures
        x * y == y * x,
{
}

/// What holds of a frame run yielded by a well-formed region.
pub open spec fn spec_frame_ok(r: MemoryRegion, g: PageSize, f: MyMemoryDescriptor) -> bool {
    &&& f.page_size == g
    &&& f.page_count > 0
    &&& (f.phys_start as int) % spec_size(g) == 0
    &&& r.phys_start <= f.phys_start
    &&& f.phys_start + f.page_count * spec_size(g) - 1 <= region_last(r)
    &&& f.virt_start == r.virt_start + (f.phys_start - r.phys_start)
}

/// Align one region at one candidate granularity. Returns the frame run it
/// yields (or `None` when it yields no page) and the bytes it wastes at this
/// granularity.
pub fn align_frame(it: &MemoryRegion, page_size_e: PageSize) -> (r: (
    Option<MyMemoryDescriptor>,
    u64,
))
    requires
        region_wf(*it),
    ensures
        r.0 == spec_frame(*it, page_size_e),
        r.1 == spec_frame_waste(*it, page_size_e),
{
    proof {
        lemma_frame_bounds(*it, page_size_e);
    }
    if it.page_count == 0 {
        return (None, 0);
    }
    let frame_size: u64 = it.page_count * 4096;
    let page_size: u64 = page_size_e.size();
    let aligned_phys_start: u64 = align_up(it.phys_start, page_size);
    let old_last_phys: u64 = it.phys_start + (frame_size - 1);
    if aligned_phys_start > old_last_phys {
        return (None, 0);
    }
    let page_count: u64 = (old_last_phys - aligned_phys_start + 1) / page_size;
    if page_count == 0 {
        return (None, 0);
    }
    let new_virt_start: u64 = it.virt_start + (aligned_phys_start - it.phys_start);
    let new_last_phys: u64 = aligned_phys_start + (page_count * page_size - 1);
    let waste: u64 = (aligned_phys_start - it.phys_start) + (old_last_phys - new_last_phys);
    (
        Some(
            MyMemoryDescriptor {
                phys_start: aligned_phys_start,
                virt_start: new_virt_start,
                page_size: page_size_e,
                page_count,
            },
        ),
        waste,
    )
}

/// Evaluate one candidate granularity over all usable regions: its frame
/// list, its achievable page count, and its total waste (trimmed bytes plus
/// table overhead in bytes).
pub fn evaluate_candidate(regions: &Vec<MemoryRegion>, g: PageSize) -> (r: (
    heapless::Vec<MyMemoryDescriptor, 64>,
    u64,
    u64,
))
    requires
        forall|k: int| 0 <= k < regions@.len() ==> region_wf(#[trigger] regions@[k]),
        regions@.len() <= 64,
    ensures
        hv_contents(&r.0) == spec_frames(regions@, g),
        r.1 == spec_total_pages(regions@, g),
        r.2 == spec_candidate_waste(regions@, g),
{
    let mut frames: heapless::Vec<MyMemoryDescriptor, 64> = hv_new();
    let mut pages: u64 = 0;
    let mut align_waste: u64 = 0;
    let mut i: usize = 0;
    while i < regions.len()
        invariant
            forall|k: int| 0 <= k < regions@.len() ==> region_wf(#[trigger] regions@[k]),
            regions@.len() <= 64,
            0 <= i <= regions@.len(),
            hv_contents(&frames) == spec_frames(regions@.take(i as int), g),
            hv_contents(&frames).len() <= i,
            pages == spec_total_pages(regions@.take(i as int), g),
            align_waste == spec_align_waste(regions@.take(i as int), g),
            pages * 4096 <= i * (ADDR_LIMIT as int),
            align_waste <= i * (ADDR_LIMIT as int),
        decreases regions@.len() - i,
    {
        let reg: MemoryRegion = regions[i];
        proof {
            lemma_frame_bounds(reg, g);
            assert(regions@.take(i as int + 1).drop_last() =~= regions@.take(i as int));
            assert(regions@.take(i as int + 1).last() == regions@[i as int]);
        }
        let (f, w) = align_frame(&reg, g);
        match f {
            Some(fr) => {
                let res = hv_push(&mut frames, fr);
                proof {
                    assert(res is Ok);
                    assert(hv_contents(&frames) =~= spec_frames(regions@.take(i as int + 1), g));
                }
                pages = pages + fr.page_count;
            },
            None => {
                proof {
                    assert(hv_contents(&frames) =~= spec_frames(regions@.take(i as int + 1), g));
                }
            },
        }
        align_waste = align_waste + w;
        i = i + 1;
    }
    proof {
        assert(regions@.take(regions@.len() as int) =~= regions@);
    }
    let usage: u64 = page_table_usage(g, pages);
    assert(usage <= 3 * pages + 3);
    let waste: u64 = align_waste + usage * 4096;
    (frames, pages, waste)
}

/// Run the three candidates and keep the winning granularity's frame list.
pub fn get_frames(regions: &Vec<MemoryRegion>) -> (frames: heapless::Vec<MyMemoryDescriptor, 64>)
    requires
        forall|k: int| 0 <= k < regions@.len() ==> region_wf(#[trigger] regions@[k]),
        regions@.len() <= 64,
    ensures
        hv_contents(&frames) == spec_frames(regions@, spec_chosen(regions@)),
{
    let (large_frames, large_pages, large_waste) = evaluate_candidate(regions, PageSize::Large);
    let (huge_frames, huge_pages, huge_waste) = evaluate_candidate(regions, PageSize::Huge);
    let (normal_frames, normal_pages, normal_waste) = evaluate_candidate(
        regions,
        PageSize::Normal,
    );
    if large_pages > 0 && (huge_pages == 0 || large_waste <= huge_waste) && (normal_pages == 0
        || large_waste <= normal_waste) {
        large_frames
    } else if huge_pages > 0 && (normal_pages == 0 || huge_waste <= normal_waste) {
        huge_frames
    } else if normal_pages > 0 {
        normal_frames
    } else {
        large_frames
    }
}

/// The granularity the three-way evaluation selects.
pub fn chosen_granularity(regions: &Vec<MemoryRegion>) -> (g: PageSize)
    requires
        forall|k: int| 0 <= k < regions@.len() ==> region_wf(#[trigger] regions@[k]),
        regions@.len() <= 64,
    ensures
        g == spec_chosen(regions@),
{
    let (_large_frames, large_pages, large_waste) = evaluate_candidate(regions, PageSize::Large);
    let (_huge_frames, huge_pages, huge_waste) = evaluate_candidate(regions, PageSize::Huge);
    let (_normal_frames, normal_pages, normal_waste) = evaluate_candidate(
        regions,
        PageSize::Normal,
    );
    if large_pages > 0 && (huge_pages == 0 || large_waste <= huge_waste) && (normal_pages == 0
        || large_waste <= normal_waste) {
        PageSize::Large
    } else if huge_pages > 0 && (normal_pages == 0 || huge_waste <= normal_waste) {
        PageSize::Huge
    } else if normal_pages > 0 {
        PageSize::Normal
    } else {
        PageSize::Large
    }
}

/// Every non-empty well-formed region's aligned start is a multiple of the
/// granularity size and does not lie below the region's own start.
pub proof fn lemma_aligned_start_multiple(r: MemoryRegion, g: PageSize)
    requires
        region_wf(r),
        r.page_count > 0,
    ensures
        spec_aligned_start(r, g) % spec_size(g) == 0,
        spec_aligned_start(r, g) >= r.phys_start,
{
    lemma_frame_bounds(r, g);
}

/// Pages, trimmed bytes and total waste of a candidate are never negative.
pub proof fn lemma_candidate_nonneg(rs: Seq<MemoryRegion>, g: PageSize)
    requires
        forall|k: int| 0 <= k < rs.len() ==> region_wf(#[trigger] rs[k]),
    ensures
        spec_total_pages(rs, g) >= 0,
        spec_align_waste(rs, g) >= 0,
        spec_candidate_waste(rs, g) >= 0,
    decreases rs.len(),
{
    if rs.len() > 0 {
        assert(forall|k: int|
            0 <= k < rs.drop_last().len() ==> region_wf(#[trigger] rs.drop_last()[k]));
        lemma_candidate_nonneg(rs.drop_last(), g);
        lemma_frame_bounds(rs.last(), g);
    }
}

/// The selected granularity's total waste is at or below every candidate's
/// that achieves pages; and when the selected one achieves no pages, no
/// candidate does.
pub proof fn lemma_selected_waste_minimal(rs: Seq<MemoryRegion>)
    requires
        forall|k: int| 0 <= k < rs.len() ==> region_wf(#[trigger] rs[k]),
    ensures
        forall|g: PageSize| #[trigger]
            spec_eligible(rs, g) ==> spec_candidate_waste(rs, spec_chosen(rs))
                <= spec_candidate_waste(rs, g),
        !spec_eligible(rs, spec_chosen(rs)) ==> forall|g: PageSize| !#[trigger] spec_eligible(
            rs,
            g,
        ),
{
    let c = spec_chosen(rs);
    let lp = spec_total_pages(rs, PageSize::Large);
    let lw = spec_candidate_waste(rs, PageSize::Large);
    let hp = spec_total_pages(rs, PageSize::Huge);
    let hw = spec_candidate_waste(rs, PageSize::Huge);
    let np = spec_total_pages(rs, PageSize::Normal);
    let nw = spec_candidate_waste(rs, PageSize::Normal);
    lemma_candidate_nonneg(rs, PageSize::Large);
    lemma_candidate_nonneg(rs, PageSize::Huge);
    lemma_candidate_nonneg(rs, PageSize::Normal);
    assert(c == spec_pick(lp, lw, hp, hw, np, nw));
    if lp > 0 && (hp == 0 || lw <= hw) && (np == 0 || lw <= nw) {
        assert(c == PageSize::Large);
    } else if hp > 0 && (np == 0 || hw <= nw) {
        assert(c == PageSize::Huge);
        assert(lp > 0 ==> hw <= lw);
    } else if np > 0 {
        assert(c == PageSize::Normal);
        assert(lp > 0 ==> nw <= lw);
        assert(hp > 0 ==> nw <= hw);
    } else {
        assert(c == PageSize::Large);
        assert(lp == 0 && hp == 0 && np == 0);
    }
    assert forall|g: PageSize| #[trigger] spec_eligible(rs, g) implies spec_candidate_waste(rs, c)
        <= spec_candidate_waste(rs, g) by {
        match g {
            PageSize::Huge => {},
            PageSize::Large => {},
            PageSize::Normal => {},
        }
    }
    if !spec_eligible(rs, c) {
        assert forall|g: PageSize| !#[trigger] spec_eligible(rs, g) by {
            match g {
                PageSize::Huge => {},
                PageSize::Large => {},
                PageSize::Normal => {},
            }
        }
    }
}

/// Total achievable bytes at any granularity never exceed the input
/// regions' own extent: in 4 KiB equivalents, the achievable page count is
/// bounded by the regions' total 4 KiB page count.
pub proof fn lemma_total_pages_bounded(rs: Seq<MemoryRegion>, g: PageSize)
    requires
        forall|k: int| 0 <= k < rs.len() ==> region_wf(#[trigger] rs[k]),
    ensures
        spec_total_pages(rs, g) * spec_size(g) <= spec_total_4k(rs) * 4096,
    decreases rs.len(),
{
    if rs.len() == 0 {
    } else {
        assert(forall|k: int|
            0 <= k < rs.drop_last().len() ==> region_wf(#[trigger] rs.drop_last()[k]));
        lemma_total_pages_bounded(rs.drop_last(), g);
        lemma_candidate_nonneg(rs.drop_last(), g);
        lemma_frame_bounds(rs.last(), g);
        let tp = spec_total_pages(rs.drop_last(), g);
        let fp = spec_frame_pages(rs.last(), g);
        let t4 = spec_total_4k(rs.drop_last());
        let pc = rs.last().page_count as int;
        let s = spec_size(g);
        assert(spec_total_pages(rs, g) == tp + fp);
        assert(spec_total_4k(rs) == t4 + pc);
        assert((tp + fp) * s == tp * s + fp * s) by (nonlinear_arith);
        assert((t4 + pc) * 4096 == t4 * 4096 + pc * 4096) by (nonlinear_arith);
        assert(tp * s <= t4 * 4096);
        assert(fp * s <= pc * 4096);
    }
}

} // verus!
