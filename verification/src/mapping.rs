//! Executable page-table construction: create-on-demand descent of the
//! four-level tree, installing one leaf mapping per call, plus the walk
//! used to read a translation back.

use vstd::prelude::*;
use vstd::pervasive::VecAdditionalExecFns;
use crate::frame_alloc::PhysFrameAllocator;
use crate::page_size::{leaf_level, spec_size, PageSize};
use crate::paging::{
    arena_wf, entry_wf, leaf_for, push_table, same_path, slot_at, slot_index, spec_map_page,
    spec_map_page_rec, supply_ok, upd_entry, walk, walk_from, zero_table, ArenaView, Entry,
    MapError, PageFlags, PageTable, PageTables, PHYS_CEILING,
};
use crate::paging_lemmas::{lemma_map_page_props_rec, lemma_wf_link, lemma_wf_push};

verus! {

/// The level a leaf of this granularity is written at.
fn leaf_level_num(g: PageSize) -> (l: u8)
    ensures
        l as int == leaf_level(g),
{
    match g {
        PageSize::Huge => 3,
        PageSize::Large => 2,
        PageSize::Normal => 1,
    }
}

/// A fully zeroed table slot for the given level, backed by the frame at
/// `addr`.
fn zeroed_table(level: u8, addr: u64) -> (t: PageTable)
    ensures
        t@ == zero_table(level, addr),
{
    let mut entries: Vec<Entry> = Vec::new();
    let mut i: usize = 0;
    while i < 512
        invariant
            i <= 512,
            entries@.len() == i,
            forall|j: int| 0 <= j < i ==> entries@[j] == Entry::Empty,
        decreases 512 - i,
    {
        entries.push(Entry::Empty);
        i = i + 1;
    }
    let t = PageTable { level, addr, entries };
    proof {
        assert(t@.entries =~= zero_table(level, addr).entries);
        assert(t@ =~= zero_table(level, addr));
    }
    t
}

impl PageTables {
    /// A new tree holding only the zeroed root table, backed by the frame at
    /// `root_addr`. Nothing translates yet.
    pub fn new(root_addr: u64) -> (pt: PageTables)
        requires
            root_addr % 0x1000 == 0,
            root_addr < PHYS_CEILING,
        ensures
            pt@ == (ArenaView { tables: seq![zero_table(4, root_addr)] }),
            arena_wf(pt@),
            pt@.tables.len() == 1,
            pt@.tables[0].addr == root_addr,
            forall|w: u64| (#[trigger] walk(pt@, w)) is None,
    {
        let root = zeroed_table(4, root_addr);
        let mut tables: Vec<PageTable> = Vec::new();
        tables.push(root);
        let pt = PageTables { tables };
        proof {
            assert(pt@.tables =~= seq![zero_table(4, root_addr)]);
            assert(pt@ =~= ArenaView { tables: seq![zero_table(4, root_addr)] });
            assert forall|w: u64| #[trigger] walk(pt@, w) is None by {
                assert(pt@.tables[0].entries[slot_at(4, w)] == Entry::Empty);
            }
        }
        pt
    }

    /// Number of table frames the tree holds.
    pub fn table_count(&self) -> (n: usize)
        ensures
            n == self@.tables.len(),
    {
        self.tables.len()
    }

    /// Physical address of the root table: the value to install in the
    /// paging-root register.
    pub fn root_addr(&self) -> (a: u64)
        requires
            self@.tables.len() >= 1,
        ensures
            a == self@.tables[0].addr,
    {
        self.tables[0].addr
    }
}

/// The descent: walk from level `l` at table `t` toward the leaf level of
/// `g`, creating zeroed intermediate tables from the allocator on demand,
/// and write the leaf. Behaves exactly as `spec_map_page_rec` over the
/// allocator's remaining supply.
fn map_page_rec(
    pt: &mut PageTables,
    alloc: &mut PhysFrameAllocator,
    l: u8,
    t: usize,
    v: u64,
    p: u64,
    g: PageSize,
    fl: PageFlags,
) -> (r: Result<(), MapError>)
    requires
        old(alloc).inv(),
        arena_wf(old(pt)@),
        supply_ok(old(pt)@, old(alloc).remaining()),
        old(pt)@.tables.len() + old(alloc).remaining().len() <= usize::MAX,
        leaf_level(g) <= l <= 4,
        (t as int) < old(pt)@.tables.len(),
        old(pt)@.tables[t as int].level == l,
    ensures
        final(alloc).inv(),
        final(alloc).supply() == old(alloc).supply(),
        ({
            let o = spec_map_page_rec(
                old(pt)@,
                old(alloc).remaining(),
                l as int,
                t as int,
                v,
                p,
                g,
                fl,
            );
            &&& final(pt)@ == o.arena
            &&& final(alloc).cursor() == old(alloc).cursor() + o.consumed
            &&& (r is Ok <==> o.err is None)
            &&& (r is Err ==> o.err == Some(r->Err_0))
        }),
    decreases l,
{
    let ghost a0 = pt@;
    let ghost f0 = alloc.remaining();
    let s: usize = slot_index(l, v);
    proof {
        assert(a0.tables[t as int].entries.len() == 512);
        assert(pt.tables@[t as int]@ == a0.tables[t as int]);
    }
    let e: Entry = pt.tables[t].entries[s];
    let ll: u8 = leaf_level_num(g);
    if l == ll {
        match e {
            Entry::Empty => {
                let leaf = Entry::Leaf {
                    addr: p,
                    flags: fl,
                    huge: match g {
                        PageSize::Normal => false,
                        _ => true,
                    },
                };
                proof {
                    assert(leaf == leaf_for(p, fl, g));
                }
                let tab = &mut pt.tables[t];
                tab.entries.set(s, leaf);
                proof {
                    assert(pt@.tables =~= upd_entry(a0, t as int, s as int, leaf).tables);
                    assert(pt@ =~= upd_entry(a0, t as int, s as int, leaf));
                }
                Ok(())
            },
            _ => Err(MapError::AlreadyMapped),
        }
    } else {
        match e {
            Entry::Node { child, .. } => {
                proof {
                    assert(entry_wf(a0, a0.tables[t as int].level, e));
                }
                let r = map_page_rec(pt, alloc, l - 1, child, v, p, g, fl);
                proof {
                    assert(spec_map_page_rec(a0, f0, l as int, t as int, v, p, g, fl)
                        == spec_map_page_rec(
                        a0,
                        f0,
                        l as int - 1,
                        child as int,
                        v,
                        p,
                        g,
                        fl,
                    ));
                }
                r
            },
            Entry::Leaf { .. } => Err(MapError::AlreadyMapped),
            Entry::Empty => {
                match alloc.allocate_frame() {
                    None => {
                        proof {
                            assert(f0.len() == 0);
                        }
                        Err(MapError::AllocatorExhausted)
                    },
                    Some(frame_addr) => {
                        proof {
                            assert(frame_addr == f0[0]);
                        }
                        let c: usize = pt.tables.len();
                        let newt = zeroed_table(l - 1, frame_addr);
                        pt.tables.push(newt);
                        let ghost a1 = push_table(a0, (l - 1) as u8, frame_addr);
                        proof {
                            assert(pt@.tables =~= a1.tables);
                            assert(pt@ =~= a1);
                            lemma_wf_push(a0, (l - 1) as u8, frame_addr);
                        }
                        let nd = Entry::Node { child: c, addr: frame_addr, flags: fl };
                        let tab = &mut pt.tables[t];
                        tab.entries.set(s, nd);
                        let ghost a2 = upd_entry(a1, t as int, s as int, nd);
                        proof {
                            assert(pt@.tables =~= a2.tables);
                            assert(pt@ =~= a2);
                            assert(a1.tables[c as int].addr == frame_addr);
                            assert(a1.tables[c as int].level + 1 == a1.tables[t as int].level);
                            assert forall|i: int, j: int|
                                0 <= i < a1.tables.len() && 0 <= j < 512 && crate::paging::is_node(
                                    #[trigger] a1.tables[i].entries[j],
                                ) implies crate::paging::child_of(a1.tables[i].entries[j])
                                != c as int by {
                                if i < a0.tables.len() {
                                    assert(a1.tables[i].entries[j] == a0.tables[i].entries[j]);
                                    assert(entry_wf(a0, a0.tables[i].level, a0.tables[i].entries[j]));
                                } else {
                                    assert(a1.tables[i].entries[j] == Entry::Empty);
                                }
                            }
                            lemma_wf_link(a1, t as int, s as int, c as int, fl);
                            assert(supply_ok(a2, f0.skip(1))) by {
                                assert(forall|x: u64|
                                    crate::paging::has_addr(a2, x) <==> crate::paging::has_addr(
                                        a1,
                                        x,
                                    ));
                                assert(forall|x: u64|
                                    crate::paging::has_addr(a1, x) <==> crate::paging::has_addr(
                                        a0,
                                        x,
                                    ) || x == f0[0]);
                                assert(forall|k: int|
                                    0 <= k < f0.skip(1).len() ==> f0.skip(1)[k] == f0[k + 1]);
                            }
                            assert(alloc.remaining() =~= f0.skip(1));
                        }
                        let r = map_page_rec(pt, alloc, l - 1, c, v, p, g, fl);
                        proof {
                            let o2 = spec_map_page_rec(
                                a2,
                                f0.skip(1),
                                l as int - 1,
                                c as int,
                                v,
                                p,
                                g,
                                fl,
                            );
                            let o = spec_map_page_rec(a0, f0, l as int, t as int, v, p, g, fl);
                            assert(o.arena == o2.arena && o.consumed == o2.consumed + 1 && o.err
                                == o2.err);
                        }
                        r
                    },
                }
            },
        }
    }
}

/// Install one leaf mapping of granularity `g`: virtual page `v` translates
/// to physical frame `p` with the given flags, intermediate tables being
/// created on demand from the allocator. On success exactly the addresses
/// sharing `v`'s index path translate to the new leaf and no other
/// translation changes; on failure no translation changes at all, and a page
/// whose walk already ends in a leaf is rejected as already mapped with the
/// tree unchanged.
pub fn map_page(
    pt: &mut PageTables,
    alloc: &mut PhysFrameAllocator,
    v: u64,
    p: u64,
    g: PageSize,
    fl: PageFlags,
) -> (r: Result<(), MapError>)
    requires
        old(alloc).inv(),
        arena_wf(old(pt)@),
        supply_ok(old(pt)@, old(alloc).remaining()),
        old(pt)@.tables.len() + old(alloc).remaining().len() <= usize::MAX,
        (p as int) % spec_size(g) == 0,
        p < PHYS_CEILING,
    ensures
        final(alloc).inv(),
        final(alloc).supply() == old(alloc).supply(),
        arena_wf(final(pt)@),
        supply_ok(final(pt)@, final(alloc).remaining()),
        final(pt)@.tables.len() + final(alloc).remaining().len() <= usize::MAX,
        ({
            let o = spec_map_page(old(pt)@, old(alloc).remaining(), v, p, g, fl);
            &&& final(pt)@ == o.arena
            &&& final(alloc).cursor() == old(alloc).cursor() + o.consumed
            &&& 0 <= o.consumed <= old(alloc).remaining().len()
            &&& (r is Ok <==> o.err is None)
            &&& (r is Err ==> o.err == Some(r->Err_0))
        }),
        r is Ok ==> forall|w: u64|
            same_path(w, v, g) ==> #[trigger] walk(final(pt)@, w) == Some((leaf_for(p, fl, g), g)),
        r is Ok ==> forall|w: u64|
            !same_path(w, v, g) ==> #[trigger] walk(final(pt)@, w) == walk(old(pt)@, w),
        r is Ok ==> forall|w: u64| same_path(w, v, g) ==> #[trigger] walk(old(pt)@, w) is None,
        r is Err ==> forall|w: u64| #[trigger] walk(final(pt)@, w) == walk(old(pt)@, w),
        walk(old(pt)@, v) is Some ==> r == Err::<(), MapError>(MapError::AlreadyMapped)
            && final(pt)@ == old(pt)@,
    decreases 0nat,
{
    let ghost a0 = pt@;
    let ghost f0 = alloc.remaining();
    let ghost c0 = alloc.cursor();
    proof {
        lemma_map_page_props_rec(a0, f0, 4, 0, v, p, g, fl);
    }
    let r = map_page_rec(pt, alloc, 4, 0, v, p, g, fl);
    proof {
        let o = spec_map_page(a0, f0, v, p, g, fl);
        assert(alloc.remaining() =~= f0.skip(o.consumed));
    }
    r
}

/// Read back the translation of `w`: the physical address, flags and
/// granularity of the leaf that a hardware walk of the tree would find.
pub fn lookup(pt: &PageTables, w: u64) -> (r: Option<(u64, PageSize, PageFlags)>)
    requires
        arena_wf(pt@),
    ensures
        match walk(pt@, w) {
            Some((e, g)) => {
                &&& r is Some
                &&& e matches Entry::Leaf { addr, flags, .. } && r == Some((addr, g, flags))
            },
            None => r is None,
        },
{
    let mut l: u8 = 4;
    let mut t: usize = 0;
    proof {
        assert(walk(pt@, w) == walk_from(pt@, 4, 0, w));
    }
    loop
        invariant
            arena_wf(pt@),
            1 <= l <= 4,
            (t as int) < pt@.tables.len(),
            pt@.tables[t as int].level == l,
            walk(pt@, w) == walk_from(pt@, l as int, t as int, w),
        decreases l,
    {
        let s: usize = slot_index(l, w);
        proof {
            assert(pt@.tables[t as int].entries.len() == 512);
        }
        let e: Entry = pt.tables[t].entries[s];
        match e {
            Entry::Empty => {
                return None;
            },
            Entry::Leaf { addr, flags, huge } => {
                if l == 1 && !huge {
                    return Some((addr, PageSize::Normal, flags));
                } else if l == 2 && huge {
                    return Some((addr, PageSize::Large, flags));
                } else if l == 3 && huge {
                    return Some((addr, PageSize::Huge, flags));
                } else {
                    return None;
                }
            },
            Entry::Node { child, .. } => {
                if l >= 2 {
                    proof {
                        assert(entry_wf(pt@, pt@.tables[t as int].level, e));
                    }
                    t = child;
                    l = l - 1;
                } else {
                    return None;
                }
            },
        }
    }
}

/// A contiguous interval mapped page by page: page `i` maps virtual
/// `v + i*size` to physical `p + i*size`. Stops at the first failure,
/// keeping what was mapped before it (no rollback).
pub open spec fn spec_map_interval(
    a: ArenaView,
    frames: Seq<u64>,
    v: u64,
    p: u64,
    n: int,
    g: PageSize,
    fl: PageFlags,
) -> crate::paging::MapOutcome
    decreases n,
{
    if n <= 0 {
        crate::paging::MapOutcome { arena: a, consumed: 0, err: None }
    } else {
        let o = spec_map_page(a, frames, v, p, g, fl);
        if o.err is Some {
            o
        } else {
            let o2 = spec_map_interval(
                o.arena,
                frames.skip(o.consumed),
                (v + spec_size(g)) as u64,
                (p + spec_size(g)) as u64,
                n - 1,
                g,
                fl,
            );
            crate::paging::MapOutcome {
                arena: o2.arena,
                consumed: o.consumed + o2.consumed,
                err: o2.err,
            }
        }
    }
}

/// What an interval mapping guarantees: on success, walking the table
/// forward from `v` yields the `n` leaves `p, p + size, ...` in order with
/// no gaps, and every address off the interval's paths translates exactly as
/// before.
pub proof fn lemma_map_interval_props(
    a: ArenaView,
    frames: Seq<u64>,
    v: u64,
    p: u64,
    n: int,
    g: PageSize,
    fl: PageFlags,
)
    requires
        arena_wf(a),
        supply_ok(a, frames),
        a.tables.len() + frames.len() <= usize::MAX,
        (v as int) % spec_size(g) == 0,
        (p as int) % spec_size(g) == 0,
        n >= 0,
        v + n * spec_size(g) <= 0x1_0000_0000_0000,
        p + n * spec_size(g) <= PHYS_CEILING,
    ensures
        ({
            let o = spec_map_interval(a, frames, v, p, n, g, fl);
            &&& arena_wf(o.arena)
            &&& 0 <= o.consumed <= frames.len()
            &&& o.arena.tables.len() == a.tables.len() + o.consumed
            &&& supply_ok(o.arena, frames.skip(o.consumed))
            &&& (o.err is None ==> forall|i: int|
                0 <= i < n ==> #[trigger] walk(o.arena, (v + i * spec_size(g)) as u64) == Some(
                    (leaf_for((p + i * spec_size(g)) as u64, fl, g), g),
                ))
            &&& (o.err is None ==> forall|w: u64|
                (forall|i: int|
                    0 <= i < n ==> !#[trigger] same_path(w, (v + i * spec_size(g)) as u64, g))
                    ==> #[trigger] walk(o.arena, w) == walk(a, w))
        }),
    decreases n,
{
    let u = spec_size(g);
    let o = spec_map_interval(a, frames, v, p, n, g, fl);
    if n <= 0 {
        assert(frames.skip(0) =~= frames);
    } else {
        crate::paging_lemmas::lemma_map_page_props_rec(a, frames, 4, 0, v, p, g, fl);
        let o1 = spec_map_page(a, frames, v, p, g, fl);
        if o1.err is Some {
        } else {
            let v1 = (v + u) as u64;
            let p1 = (p + u) as u64;
            assert(v + n * u == v + u + (n - 1) * u && p + n * u == p + u + (n - 1) * u)
                by (nonlinear_arith)
                requires
                    n >= 1,
            ;
            assert(u >= 0x1000);
            assert(v1 as int == v + u && p1 as int == p + u);
            assert((v1 as int) % u == 0 && (p1 as int) % u == 0) by (nonlinear_arith)
                requires
                    (v as int) % u == 0,
                    (p as int) % u == 0,
                    v1 as int == v + u,
                    p1 as int == p + u,
                    u > 0,
            ;
            lemma_map_interval_props(o1.arena, frames.skip(o1.consumed), v1, p1, n - 1, g, fl);
            let o2 = spec_map_interval(o1.arena, frames.skip(o1.consumed), v1, p1, n - 1, g, fl);
            assert(frames.skip(o1.consumed).skip(o2.consumed) =~= frames.skip(
                o1.consumed + o2.consumed,
            ));
            if o.err is None {
                // each page of the interval translates to its frame
                assert forall|i: int| 0 <= i < n implies #[trigger] walk(
                    o.arena,
                    (v + i * u) as u64,
                ) == Some((leaf_for((p + i * u) as u64, fl, g), g)) by {
                    if i == 0 {
                        // pages behind v1 never share v's path
                        assert forall|i2: int| 0 <= i2 < n - 1 implies !#[trigger] same_path(
                            (v + 0 * u) as u64,
                            (v1 + i2 * u) as u64,
                            g,
                        ) by {
                            let w1 = (v + 0 * u) as u64;
                            let w2 = (v1 + i2 * u) as u64;
                            let w2i = v + (i2 + 1) * u;
                            assert(v1 + i2 * u == w2i && v + u <= w2i && w2i <= v + n * u && w2i
                                == u * (i2 + 1) + v) by (nonlinear_arith)
                                requires
                                    w2i == v + (i2 + 1) * u,
                                    0 <= i2 < n - 1,
                                    v1 as int == v + u,
                                    u >= 0x1000,
                                    v >= 0,
                            ;
                            vstd::arithmetic::div_mod::lemma_mod_multiples_vanish(
                                i2 + 1,
                                v as int,
                                u,
                            );
                            assert(w2i % u == 0);
                            assert(w1 as int == v);
                            assert(w2 as int == w2i);
                            assert(w1 != w2);
                            if same_path(w1, w2, g) {
                                crate::paging_lemmas::lemma_same_path_inj(w1, w2, g);
                            }
                        }
                        assert(walk(o2.arena, (v + 0 * u) as u64) == walk(
                            o1.arena,
                            (v + 0 * u) as u64,
                        ));
                        assert((v + 0 * u) as u64 == v);
                        assert(same_path(v, v, g));
                        assert(walk(o1.arena, v) == Some((leaf_for(p, fl, g), g)));
                        assert((p + 0 * u) as u64 == p);
                    } else {
                        assert(v1 + (i - 1) * u == v + i * u && v + i * u <= v + n * u && p1 + (
                        i - 1) * u == p + i * u && p + i * u <= p + n * u) by (nonlinear_arith)
                            requires
                                1 <= i < n,
                                v1 as int == v + u,
                                p1 as int == p + u,
                                u > 0,
                        ;
                        assert((v1 + (i - 1) * u) as u64 == (v + i * u) as u64);
                        assert((p1 + (i - 1) * u) as u64 == (p + i * u) as u64);
                        assert(walk(o2.arena, (v1 + (i - 1) * u) as u64) == Some(
                            (leaf_for((p1 + (i - 1) * u) as u64, fl, g), g),
                        ));
                    }
                }
                // addresses off every page's path keep their old translation
                assert forall|w: u64|
                    (forall|i: int| 0 <= i < n ==> !#[trigger] same_path(w, (v + i * u) as u64, g))
                        implies #[trigger] walk(o.arena, w) == walk(a, w) by {
                    assert(!same_path(w, (v + 0 * u) as u64, g));
                    assert((v + 0 * u) as u64 == v);
                    assert forall|i2: int| 0 <= i2 < n - 1 implies !#[trigger] same_path(
                        w,
                        (v1 + i2 * u) as u64,
                        g,
                    ) by {
                        assert(v1 + i2 * u == v + (i2 + 1) * u && v + (i2 + 1) * u <= v + n
                            * u) by (nonlinear_arith)
                            requires
                                0 <= i2 < n - 1,
                                v1 as int == v + u,
                                u > 0,
                        ;
                        assert((v1 + i2 * u) as u64 == (v + (i2 + 1) * u) as u64);
                        assert(!same_path(w, (v + (i2 + 1) * u) as u64, g));
                    }
                    assert(walk(o2.arena, w) == walk(o1.arena, w));
                    assert(walk(o1.arena, w) == walk(a, w));
                }
            }
        }
    }
}

/// Map `page_count` consecutive leaf mappings of granularity `page_size`:
/// virtual page `virt_start + i*size` to physical `phys_start + i*size`,
/// creating missing intermediate tables on demand. Exactly
/// `spec_map_interval` over the allocator's remaining supply; on success,
/// walking the table forward `page_count` times from `virt_start` yields the
/// leaves `phys_start, phys_start + size, ...` in order with no gaps, and
/// every address off those paths translates as before.
pub fn mmap(
    pt: &mut PageTables,
    alloc: &mut PhysFrameAllocator,
    virt_start: u64,
    phys_start: u64,
    page_count: u64,
    page_size: PageSize,
    flags: PageFlags,
) -> (r: Result<(), MapError>)
    requires
        old(alloc).inv(),
        arena_wf(old(pt)@),
        supply_ok(old(pt)@, old(alloc).remaining()),
        old(pt)@.tables.len() + old(alloc).remaining().len() <= usize::MAX,
        (virt_start as int) % spec_size(page_size) == 0,
        (phys_start as int) % spec_size(page_size) == 0,
        virt_start + page_count * spec_size(page_size) <= 0x1_0000_0000_0000,
        phys_start + page_count * spec_size(page_size) <= PHYS_CEILING,
    ensures
        final(alloc).inv(),
        final(alloc).supply() == old(alloc).supply(),
        arena_wf(final(pt)@),
        supply_ok(final(pt)@, final(alloc).remaining()),
        final(pt)@.tables.len() + final(alloc).remaining().len() <= usize::MAX,
        ({
            let o = spec_map_interval(
                old(pt)@,
                old(alloc).remaining(),
                virt_start,
                phys_start,
                page_count as int,
                page_size,
                flags,
            );
            &&& final(pt)@ == o.arena
            &&& final(alloc).cursor() == old(alloc).cursor() + o.consumed
            &&& 0 <= o.consumed <= old(alloc).remaining().len()
            &&& (r is Ok <==> o.err is None)
            &&& (r is Err ==> o.err == Some(r->Err_0))
        }),
        r is Ok ==> forall|i: int|
            0 <= i < page_count ==> #[trigger] walk(
                final(pt)@,
                (virt_start + i * spec_size(page_size)) as u64,
            ) == Some(
                (leaf_for((phys_start + i * spec_size(page_size)) as u64, flags, page_size),
                page_size),
            ),
        r is Ok ==> forall|w: u64|
            (forall|i: int|
                0 <= i < page_count ==> !#[trigger] same_path(
                    w,
                    (virt_start + i * spec_size(page_size)) as u64,
                    page_size,
                )) ==> #[trigger] walk(final(pt)@, w) == walk(old(pt)@, w),
{
    let ghost a0 = pt@;
    let ghost f0 = alloc.remaining();
    let ghost c0 = alloc.cursor();
    let ghost u = spec_size(page_size);
    proof {
        lemma_map_interval_props(a0, f0, virt_start, phys_start, page_count as int, page_size,
            flags);
    }
    let size: u64 = page_size.size();
    let mut i: u64 = 0;
    let mut vcur: u64 = virt_start;
    let mut pcur: u64 = phys_start;
    loop
        invariant
            a0 == old(pt)@,
            f0 == old(alloc).remaining(),
            c0 == old(alloc).cursor(),
            0 <= c0 <= old(alloc).supply().len(),
            f0.len() == old(alloc).supply().len() - c0,
            arena_wf(a0),
            supply_ok(a0, f0),
            a0.tables.len() + f0.len() <= usize::MAX,
            (virt_start as int) % u == 0,
            (phys_start as int) % u == 0,
            alloc.inv(),
            alloc.supply() == old(alloc).supply(),
            c0 <= alloc.cursor(),
            arena_wf(pt@),
            supply_ok(pt@, alloc.remaining()),
            pt@.tables.len() + alloc.remaining().len() <= usize::MAX,
            size == u,
            u == spec_size(page_size),
            0 <= i <= page_count,
            vcur as int == virt_start + i * u,
            pcur as int == phys_start + i * u,
            (vcur as int) % u == 0,
            (pcur as int) % u == 0,
            vcur + (page_count - i) * u <= 0x1_0000_0000_0000,
            pcur + (page_count - i) * u <= PHYS_CEILING,
            virt_start + page_count * u <= 0x1_0000_0000_0000,
            phys_start + page_count * u <= PHYS_CEILING,
            ({
                let o2 = spec_map_interval(
                    pt@,
                    alloc.remaining(),
                    vcur,
                    pcur,
                    page_count - i as int,
                    page_size,
                    flags,
                );
                spec_map_interval(a0, f0, virt_start, phys_start, page_count as int, page_size,
                    flags) == (crate::paging::MapOutcome {
                    arena: o2.arena,
                    consumed: (alloc.cursor() - c0) + o2.consumed,
                    err: o2.err,
                })
            }),
        decreases page_count - i,
    {
        if i == page_count {
            proof {
                assert(spec_map_interval(pt@, alloc.remaining(), vcur, pcur, 0int, page_size,
                    flags) == (crate::paging::MapOutcome { arena: pt@, consumed: 0, err:
                    None::<MapError> }));
                lemma_map_interval_props(a0, f0, virt_start, phys_start, page_count as int,
                    page_size, flags);
            }
            return Ok(());
        }
        let ghost apre = pt@;
        let ghost fpre = alloc.remaining();
        let ghost cpre = alloc.cursor();
        proof {
            assert((page_count - i as int) >= 1);
            assert(vcur + u <= vcur + (page_count - i) * u && pcur + u <= pcur + (page_count - i)
                * u) by (nonlinear_arith)
                requires
                    page_count - i as int >= 1,
                    u >= 0x1000,
            ;
        }
        let r0 = map_page(pt, alloc, vcur, pcur, page_size, flags);
        match r0 {
            Err(e) => {
                proof {
                    let o2 = spec_map_interval(apre, fpre, vcur, pcur, page_count - i as int,
                        page_size, flags);
                    assert(o2.err == Some(e) && o2.arena == pt@ && o2.consumed == alloc.cursor()
                        - cpre);
                }
                return Err(e);
            },
            Ok(()) => {
                proof {
                    let opage = spec_map_page(apre, fpre, vcur, pcur, page_size, flags);
                    let o2 = spec_map_interval(apre, fpre, vcur, pcur, page_count - i as int,
                        page_size, flags);
                    assert(alloc.remaining() =~= fpre.skip(opage.consumed));
                    assert(o2 == (crate::paging::MapOutcome {
                        arena: spec_map_interval(pt@, alloc.remaining(), (vcur + u) as u64, (pcur
                            + u) as u64, page_count - i as int - 1, page_size, flags).arena,
                        consumed: opage.consumed + spec_map_interval(pt@, alloc.remaining(), (
                        vcur + u) as u64, (pcur + u) as u64, page_count - i as int - 1,
                            page_size, flags).consumed,
                        err: spec_map_interval(pt@, alloc.remaining(), (vcur + u) as u64, (pcur
                            + u) as u64, page_count - i as int - 1, page_size, flags).err,
                    }));
                    assert((vcur + u) as int % u == 0 && (pcur + u) as int % u == 0)
                        by (nonlinear_arith)
                        requires
                            (vcur as int) % u == 0,
                            (pcur as int) % u == 0,
                            u > 0,
                            vcur + u <= 0x1_0000_0000_0000,
                            pcur + u <= PHYS_CEILING,
                    ;
                    assert(vcur + u == virt_start + (i + 1) * u && pcur + u == phys_start + (i
                        + 1) * u) by (nonlinear_arith)
                        requires
                            vcur as int == virt_start + i * u,
                            pcur as int == phys_start + i * u,
                    ;
                    assert(vcur + u + (page_count - (i + 1)) * u == vcur + (page_count - i) * u
                        && pcur + u + (page_count - (i + 1)) * u == pcur + (page_count - i) * u)
                        by (nonlinear_arith)
                        requires
                            i < page_count,
                    ;
                }
                vcur = vcur + size;
                pcur = pcur + size;
                i = i + 1;
            },
        }
    }
}

/// A single page step fails only as already-mapped or as exhaustion.
proof fn lemma_map_page_rec_err_kind(
    a: ArenaView,
    frames: Seq<u64>,
    l: int,
    t: int,
    v: u64,
    p: u64,
    g: PageSize,
    fl: PageFlags,
)
    ensures
        spec_map_page_rec(a, frames, l, t, v, p, g, fl).err != Some(MapError::EmptyRanges),
    decreases l,
{
    if l < 1 {
    } else if l == leaf_level(g) {
    } else {
        match a.tables[t].entries[slot_at(l, v)] {
            Entry::Node { child, .. } => {
                lemma_map_page_rec_err_kind(a, frames, l - 1, child as int, v, p, g, fl);
            },
            Entry::Leaf { .. } => {},
            Entry::Empty => {
                if frames.len() > 0 {
                    let c = a.tables.len() as int;
                    let a1 = push_table(a, (l - 1) as u8, frames[0]);
                    let a2 = upd_entry(a1, t, slot_at(l, v), Entry::Node {
                        child: c as usize,
                        addr: frames[0],
                        flags: fl,
                    });
                    lemma_map_page_rec_err_kind(a2, frames.skip(1), l - 1, c, v, p, g, fl);
                }
            },
        }
    }
}

/// An interval of pages fails only as already-mapped or as exhaustion.
proof fn lemma_map_interval_err_kind(
    a: ArenaView,
    frames: Seq<u64>,
    v: u64,
    p: u64,
    n: int,
    g: PageSize,
    fl: PageFlags,
)
    ensures
        spec_map_interval(a, frames, v, p, n, g, fl).err != Some(MapError::EmptyRanges),
    decreases n,
{
    if n <= 0 {
    } else {
        lemma_map_page_rec_err_kind(a, frames, 4, 0, v, p, g, fl);
        let o = spec_map_page(a, frames, v, p, g, fl);
        if o.err is Some {
        } else {
            lemma_map_interval_err_kind(o.arena, frames.skip(o.consumed), (v + spec_size(
                g,
            )) as u64, (p + spec_size(g)) as u64, n - 1, g, fl);
        }
    }
}

/// A virtual page interval: `start` and `end` are the page-start addresses
/// of the first and the last page that were mapped (both inclusive).
#[derive(Clone, Copy, PartialEq, Eq, Structural, Debug)]
pub struct PageRange {
    pub start: u64,
    pub end: u64,
}

/// A contiguous run of physical frames: a start address and a page count.
#[derive(Clone, Copy, PartialEq, Eq, Structural, Debug)]
pub struct FrameRange {
    pub start: u64,
    pub pages: u64,
}

/// The frame run covering a region's extent, in the region's own 4 KiB
/// granularity.
pub fn mem_desc2frame_range(descriptor: &crate::region::MemoryRegion) -> (r: FrameRange)
    ensures
        r.start == descriptor.phys_start,
        r.pages == descriptor.page_count,
{
    FrameRange { start: descriptor.phys_start, pages: descriptor.page_count }
}

/// The page-start address one page after `page`.
pub fn next_page(page: u64, page_size: PageSize) -> (r: u64)
    requires
        page + spec_size(page_size) <= u64::MAX,
    ensures
        r == page + spec_size(page_size),
{
    page + page_size.size()
}

/// A sequence of individual physical frames mapped to consecutive virtual
/// pages from `v` on: frame `k` lands one granularity unit after frame
/// `k - 1`.
pub open spec fn spec_map_frames(
    a: ArenaView,
    frames: Seq<u64>,
    v: u64,
    targets: Seq<u64>,
    g: PageSize,
    fl: PageFlags,
) -> crate::paging::MapOutcome
    decreases targets.len(),
{
    if targets.len() == 0 {
        crate::paging::MapOutcome { arena: a, consumed: 0, err: None }
    } else {
        let o = spec_map_page(a, frames, v, targets[0], g, fl);
        if o.err is Some {
            o
        } else {
            let o2 = spec_map_frames(
                o.arena,
                frames.skip(o.consumed),
                (v + spec_size(g)) as u64,
                targets.skip(1),
                g,
                fl,
            );
            crate::paging::MapOutcome {
                arena: o2.arena,
                consumed: o.consumed + o2.consumed,
                err: o2.err,
            }
        }
    }
}

/// Map an already-enumerated sequence of physical frames to consecutive
/// virtual pages starting at `start`, one page per frame. Exactly
/// `spec_map_frames` over the allocator's remaining supply; the returned
/// range runs from `start` to the start of the last page used.
pub fn frames_map_to(
    pt: &mut PageTables,
    alloc: &mut PhysFrameAllocator,
    start: u64,
    frames: &Vec<u64>,
    page_size: PageSize,
    flags: PageFlags,
) -> (r: Result<PageRange, MapError>)
    requires
        old(alloc).inv(),
        arena_wf(old(pt)@),
        supply_ok(old(pt)@, old(alloc).remaining()),
        old(pt)@.tables.len() + old(alloc).remaining().len() <= usize::MAX,
        forall|k: int|
            0 <= k < frames@.len() ==> ((#[trigger] frames@[k]) as int) % spec_size(page_size)
                == 0 && frames@[k] < PHYS_CEILING,
        start + frames@.len() * spec_size(page_size) <= 0x1_0000_0000_0000,
    ensures
        final(alloc).inv(),
        final(alloc).supply() == old(alloc).supply(),
        arena_wf(final(pt)@),
        supply_ok(final(pt)@, final(alloc).remaining()),
        final(pt)@.tables.len() + final(alloc).remaining().len() <= usize::MAX,
        ({
            let o = spec_map_frames(
                old(pt)@,
                old(alloc).remaining(),
                start,
                frames@,
                page_size,
                flags,
            );
            &&& final(pt)@ == o.arena
            &&& final(alloc).cursor() == old(alloc).cursor() + o.consumed
            &&& 0 <= o.consumed <= old(alloc).remaining().len()
            &&& (r is Ok <==> o.err is None)
            &&& (r is Err ==> o.err == Some(r->Err_0))
        }),
        r is Ok ==> r->Ok_0.start == start,
        r is Ok ==> r->Ok_0.end as int == if frames@.len() > 0 {
            start + (frames@.len() - 1) * spec_size(page_size)
        } else {
            start as int
        },
{
    let ghost a0 = pt@;
    let ghost f0 = alloc.remaining();
    let ghost c0 = alloc.cursor();
    let ghost u = spec_size(page_size);
    let size: u64 = page_size.size();
    let n: usize = frames.len();
    let mut i: usize = 0;
    let mut vcur: u64 = start;
    proof {
        assert(frames@.skip(0) =~= frames@);
    }
    loop
        invariant
            a0 == old(pt)@,
            f0 == old(alloc).remaining(),
            c0 == old(alloc).cursor(),
            0 <= c0 <= old(alloc).supply().len(),
            f0.len() == old(alloc).supply().len() - c0,
            arena_wf(a0),
            alloc.inv(),
            alloc.supply() == old(alloc).supply(),
            c0 <= alloc.cursor(),
            arena_wf(pt@),
            supply_ok(pt@, alloc.remaining()),
            pt@.tables.len() + alloc.remaining().len() <= usize::MAX,
            size == u,
            u == spec_size(page_size),
            n == frames@.len(),
            forall|k: int|
                0 <= k < frames@.len() ==> ((#[trigger] frames@[k]) as int) % u == 0
                    && frames@[k] < PHYS_CEILING,
            0 <= i <= n,
            vcur as int == start + i * u,
            start + n * u <= 0x1_0000_0000_0000,
            ({
                let o2 = spec_map_frames(
                    pt@,
                    alloc.remaining(),
                    vcur,
                    frames@.skip(i as int),
                    page_size,
                    flags,
                );
                spec_map_frames(a0, f0, start, frames@, page_size, flags)
                    == (crate::paging::MapOutcome {
                    arena: o2.arena,
                    consumed: (alloc.cursor() - c0) + o2.consumed,
                    err: o2.err,
                })
            }),
        decreases n - i,
    {
        if i == n {
            proof {
                assert(frames@.skip(i as int).len() == 0);
                assert(spec_map_frames(pt@, alloc.remaining(), vcur, frames@.skip(i as int),
                    page_size, flags) == (crate::paging::MapOutcome { arena: pt@, consumed: 0,
                    err: None::<MapError> }));
                if n > 0 {
                    assert(vcur - u == start + (n - 1) * u) by (nonlinear_arith)
                        requires
                            vcur as int == start + n * u,
                            n >= 1,
                    ;
                }
            }
            let end: u64 = if n > 0 {
                vcur - size
            } else {
                start
            };
            return Ok(PageRange { start, end });
        }
        let ghost apre = pt@;
        let ghost fpre = alloc.remaining();
        let ghost cpre = alloc.cursor();
        proof {
            assert(vcur + u <= start + n * u) by (nonlinear_arith)
                requires
                    vcur as int == start + i * u,
                    i < n,
                    u >= 0x1000,
            ;
            assert(frames@.skip(i as int)[0] == frames@[i as int]);
        }
        let target: u64 = frames[i];
        let r0 = map_page(pt, alloc, vcur, target, page_size, flags);
        match r0 {
            Err(e) => {
                proof {
                    let o2 = spec_map_frames(apre, fpre, vcur, frames@.skip(i as int), page_size,
                        flags);
                    assert(o2.err == Some(e) && o2.arena == pt@ && o2.consumed == alloc.cursor()
                        - cpre);
                }
                return Err(e);
            },
            Ok(()) => {
                proof {
                    let opage = spec_map_page(apre, fpre, vcur, target, page_size, flags);
                    assert(alloc.remaining() =~= fpre.skip(opage.consumed));
                    assert(frames@.skip(i as int).skip(1) =~= frames@.skip(i as int + 1));
                    let o2 = spec_map_frames(apre, fpre, vcur, frames@.skip(i as int), page_size,
                        flags);
                    assert(o2 == (crate::paging::MapOutcome {
                        arena: spec_map_frames(pt@, alloc.remaining(), (vcur + u) as u64,
                            frames@.skip(i as int + 1), page_size, flags).arena,
                        consumed: opage.consumed + spec_map_frames(pt@, alloc.remaining(), (vcur
                            + u) as u64, frames@.skip(i as int + 1), page_size, flags).consumed,
                        err: spec_map_frames(pt@, alloc.remaining(), (vcur + u) as u64,
                            frames@.skip(i as int + 1), page_size, flags).err,
                    }));
                    assert(vcur + u == start + (i + 1) * u) by (nonlinear_arith)
                        requires
                            vcur as int == start + i * u,
                    ;
                }
                vcur = vcur + size;
                i = i + 1;
            },
        }
    }
}

/// Total pages over a sequence of frame runs.
pub open spec fn spec_ranges_pages(rs: Seq<FrameRange>) -> int
    decreases rs.len(),
{
    if rs.len() == 0 {
        0
    } else {
        rs[0].pages + spec_ranges_pages(rs.skip(1))
    }
}

pub proof fn lemma_ranges_pages_nonneg(rs: Seq<FrameRange>)
    ensures
        spec_ranges_pages(rs) >= 0,
    decreases rs.len(),
{
    if rs.len() > 0 {
        lemma_ranges_pages_nonneg(rs.skip(1));
    }
}

/// Disjoint physical ranges placed back-to-back in virtual space: each
/// range starts exactly one virtual page after the previous range's last
/// mapped page, so physically discontinuous regions become virtually
/// contiguous.
pub open spec fn spec_map_ranges(
    a: ArenaView,
    frames: Seq<u64>,
    v: u64,
    rs: Seq<FrameRange>,
    g: PageSize,
    fl: PageFlags,
) -> crate::paging::MapOutcome
    decreases rs.len(),
{
    if rs.len() == 0 {
        crate::paging::MapOutcome { arena: a, consumed: 0, err: None }
    } else {
        let o = spec_map_interval(a, frames, v, rs[0].start, rs[0].pages as int, g, fl);
        if o.err is Some {
            o
        } else {
            let o2 = spec_map_ranges(
                o.arena,
                frames.skip(o.consumed),
                (v + rs[0].pages * spec_size(g)) as u64,
                rs.skip(1),
                g,
                fl,
            );
            crate::paging::MapOutcome {
                arena: o2.arena,
                consumed: o.consumed + o2.consumed,
                err: o2.err,
            }
        }
    }
}

/// Map a sequence of disjoint physical ranges back-to-back at consecutive
/// virtual pages from `start` on. Invoking this mode with zero ranges is a
/// caller error: it is rejected before any table write occurs, and that is
/// the only input rejected with `EmptyRanges`. Otherwise the call behaves
/// exactly as `spec_map_ranges` over the allocator's remaining supply; the
/// returned range runs from `start` to the start of the last mapped page.
pub fn ranges_map_to(
    pt: &mut PageTables,
    alloc: &mut PhysFrameAllocator,
    start: u64,
    ranges: &Vec<FrameRange>,
    page_size: PageSize,
    flags: PageFlags,
) -> (r: Result<PageRange, MapError>)
    requires
        old(alloc).inv(),
        arena_wf(old(pt)@),
        supply_ok(old(pt)@, old(alloc).remaining()),
        old(pt)@.tables.len() + old(alloc).remaining().len() <= usize::MAX,
        (start as int) % spec_size(page_size) == 0,
        forall|k: int|
            0 <= k < ranges@.len() ==> ((#[trigger] ranges@[k]).start as int) % spec_size(
                page_size,
            ) == 0 && ranges@[k].start + ranges@[k].pages * spec_size(page_size) <= PHYS_CEILING,
        start + spec_ranges_pages(ranges@) * spec_size(page_size) <= 0x1_0000_0000_0000,
    ensures
        final(alloc).inv(),
        final(alloc).supply() == old(alloc).supply(),
        arena_wf(final(pt)@),
        supply_ok(final(pt)@, final(alloc).remaining()),
        final(pt)@.tables.len() + final(alloc).remaining().len() <= usize::MAX,
        (r is Err && r->Err_0 == MapError::EmptyRanges) <==> ranges@.len() == 0,
        ranges@.len() == 0 ==> final(pt)@ == old(pt)@ && final(alloc).cursor() == old(
            alloc,
        ).cursor(),
        ranges@.len() > 0 ==> ({
            let o = spec_map_ranges(
                old(pt)@,
                old(alloc).remaining(),
                start,
                ranges@,
                page_size,
                flags,
            );
            &&& final(pt)@ == o.arena
            &&& final(alloc).cursor() == old(alloc).cursor() + o.consumed
            &&& (r is Ok <==> o.err is None)
            &&& (r is Err ==> o.err == Some(r->Err_0))
        }),
        r is Ok ==> r->Ok_0.start == start,
        r is Ok ==> r->Ok_0.end as int == if spec_ranges_pages(ranges@) > 0 {
            start + (spec_ranges_pages(ranges@) - 1) * spec_size(page_size)
        } else {
            start as int
        },
{
    let ghost a0 = pt@;
    let ghost f0 = alloc.remaining();
    let ghost c0 = alloc.cursor();
    let ghost u = spec_size(page_size);
    if ranges.len() == 0 {
        return Err(MapError::EmptyRanges);
    }
    let size: u64 = page_size.size();
    let n: usize = ranges.len();
    let mut i: usize = 0;
    let mut vcur: u64 = start;
    let mut done: u64 = 0;
    proof {
        assert(ranges@.skip(0) =~= ranges@);
        lemma_ranges_pages_nonneg(ranges@);
    }
    loop
        invariant
            a0 == old(pt)@,
            f0 == old(alloc).remaining(),
            c0 == old(alloc).cursor(),
            0 <= c0 <= old(alloc).supply().len(),
            f0.len() == old(alloc).supply().len() - c0,
            arena_wf(a0),
            alloc.inv(),
            alloc.supply() == old(alloc).supply(),
            c0 <= alloc.cursor(),
            arena_wf(pt@),
            supply_ok(pt@, alloc.remaining()),
            pt@.tables.len() + alloc.remaining().len() <= usize::MAX,
            size == u,
            u == spec_size(page_size),
            n == ranges@.len(),
            n > 0,
            forall|k: int|
                0 <= k < ranges@.len() ==> ((#[trigger] ranges@[k]).start as int) % u == 0
                    && ranges@[k].start + ranges@[k].pages * u <= PHYS_CEILING,
            0 <= i <= n,
            vcur as int == start + done * u,
            done == spec_ranges_pages(ranges@.take(i as int)),
            (vcur as int) % u == 0,
            (start as int) % u == 0,
            vcur + spec_ranges_pages(ranges@.skip(i as int)) * u <= 0x1_0000_0000_0000,
            start + spec_ranges_pages(ranges@) * u <= 0x1_0000_0000_0000,
            spec_ranges_pages(ranges@) == done + spec_ranges_pages(ranges@.skip(i as int)),
            ({
                let o2 = spec_map_ranges(
                    pt@,
                    alloc.remaining(),
                    vcur,
                    ranges@.skip(i as int),
                    page_size,
                    flags,
                );
                spec_map_ranges(a0, f0, start, ranges@, page_size, flags)
                    == (crate::paging::MapOutcome {
                    arena: o2.arena,
                    consumed: (alloc.cursor() - c0) + o2.consumed,
                    err: o2.err,
                })
            }),
        decreases n - i,
    {
        if i == n {
            proof {
                assert(ranges@.skip(i as int).len() == 0);
                assert(spec_map_ranges(pt@, alloc.remaining(), vcur, ranges@.skip(i as int),
                    page_size, flags) == (crate::paging::MapOutcome { arena: pt@, consumed: 0,
                    err: None::<MapError> }));
                assert(ranges@.take(n as int) =~= ranges@);
                if done > 0 {
                    assert(vcur - u == start + (done - 1) * u) by (nonlinear_arith)
                        requires
                            vcur as int == start + done * u,
                            done >= 1,
                    ;
                }
            }
            let end: u64 = if done > 0 {
                vcur - size
            } else {
                start
            };
            return Ok(PageRange { start, end });
        }
        let ghost apre = pt@;
        let ghost fpre = alloc.remaining();
        let ghost cpre = alloc.cursor();
        let rg: FrameRange = ranges[i];
        proof {
            assert(ranges@.skip(i as int)[0] == ranges@[i as int]);
            lemma_ranges_pages_nonneg(ranges@.skip(i as int + 1));
            assert(spec_ranges_pages(ranges@.skip(i as int)) == rg.pages + spec_ranges_pages(
                ranges@.skip(i as int + 1))) by {
                assert(ranges@.skip(i as int).skip(1) =~= ranges@.skip(i as int + 1));
            }
            assert(vcur + rg.pages * u + spec_ranges_pages(ranges@.skip(i as int + 1)) * u <= 0x1_0000_0000_0000)
                by (nonlinear_arith)
                requires
                    vcur + (rg.pages + spec_ranges_pages(ranges@.skip(i as int + 1))) * u
                        <= 0x1_0000_0000_0000,
            ;
            assert(spec_ranges_pages(ranges@.skip(i as int + 1)) >= 0);
            assert(vcur + rg.pages * u <= 0x1_0000_0000_0000) by (nonlinear_arith)
                requires
                    vcur + rg.pages * u + spec_ranges_pages(ranges@.skip(i as int + 1)) * u
                        <= 0x1_0000_0000_0000,
                    spec_ranges_pages(ranges@.skip(i as int + 1)) >= 0,
                    u > 0,
            ;
        }
        let r0 = mmap(pt, alloc, vcur, rg.start, rg.pages, page_size, flags);
        match r0 {
            Err(e) => {
                proof {
                    let o2 = spec_map_ranges(apre, fpre, vcur, ranges@.skip(i as int), page_size,
                        flags);
                    assert(o2.err == Some(e) && o2.arena == pt@ && o2.consumed == alloc.cursor()
                        - cpre);
                    lemma_map_interval_err_kind(apre, fpre, vcur, rg.start, rg.pages as int,
                        page_size, flags);
                    assert(e != MapError::EmptyRanges);
                }
                return Err(e);
            },
            Ok(()) => {
                proof {
                    let ostep = spec_map_interval(apre, fpre, vcur, rg.start, rg.pages as int,
                        page_size, flags);
                    assert(alloc.remaining() =~= fpre.skip(ostep.consumed));
                    assert(ranges@.skip(i as int).skip(1) =~= ranges@.skip(i as int + 1));
                    let o2 = spec_map_ranges(apre, fpre, vcur, ranges@.skip(i as int), page_size,
                        flags);
                    assert(o2 == (crate::paging::MapOutcome {
                        arena: spec_map_ranges(pt@, alloc.remaining(), (vcur + rg.pages * u) as u64,
                            ranges@.skip(i as int + 1), page_size, flags).arena,
                        consumed: ostep.consumed + spec_map_ranges(pt@, alloc.remaining(), (vcur
                            + rg.pages * u) as u64, ranges@.skip(i as int + 1), page_size,
                            flags).consumed,
                        err: spec_map_ranges(pt@, alloc.remaining(), (vcur + rg.pages * u) as u64,
                            ranges@.skip(i as int + 1), page_size, flags).err,
                    }));
                    assert(ranges@.take(i as int + 1).drop_last() =~= ranges@.take(i as int));
                    lemma_ranges_pages_take(ranges@, i as int);
                    assert(vcur + rg.pages * u == start + (done + rg.pages) * u)
                        by (nonlinear_arith)
                        requires
                            vcur as int == start + done * u,
                    ;
                    assert((vcur as int + rg.pages * u) % u == 0) by {
                        vstd::arithmetic::div_mod::lemma_mod_multiples_vanish(rg.pages as int,
                            vcur as int, u);
                        assert(u * (rg.pages as int) == (rg.pages as int) * u)
                            by (nonlinear_arith);
                    }
                }
                let pages_mapped: u64 = rg.pages;
                vcur = vcur + pages_mapped * size;
                done = done + pages_mapped;
                i = i + 1;
            },
        }
    }
}

/// The pages of a prefix extended by one more range.
proof fn lemma_ranges_pages_take(rs: Seq<FrameRange>, i: int)
    requires
        0 <= i < rs.len(),
    ensures
        spec_ranges_pages(rs.take(i + 1)) == spec_ranges_pages(rs.take(i)) + rs[i].pages,
    decreases i,
{
    if i == 0 {
        assert(rs.take(1).skip(1) =~= Seq::<FrameRange>::empty());
        assert(rs.take(0) =~= Seq::<FrameRange>::empty());
        assert(rs.take(1)[0] == rs[0]);
    } else {
        lemma_ranges_pages_take(rs.skip(1), i - 1);
        assert(rs.take(i + 1)[0] == rs[0]);
        assert(rs.take(i)[0] == rs[0]);
        assert(rs.take(i + 1).skip(1) =~= rs.skip(1).take(i));
        assert(rs.take(i).skip(1) =~= rs.skip(1).take(i - 1));
        assert(rs.skip(1)[i - 1] == rs[i]);
    }
}

/// Map one contiguous physical range to a virtual interval of equal length
/// starting at `start`: mode (a) of the builder, a thin front over `mmap`.
pub fn range_map_to(
    pt: &mut PageTables,
    alloc: &mut PhysFrameAllocator,
    start: u64,
    range: FrameRange,
    page_size: PageSize,
    flags: PageFlags,
) -> (r: Result<PageRange, MapError>)
    requires
        old(alloc).inv(),
        arena_wf(old(pt)@),
        supply_ok(old(pt)@, old(alloc).remaining()),
        old(pt)@.tables.len() + old(alloc).remaining().len() <= usize::MAX,
        (start as int) % spec_size(page_size) == 0,
        (range.start as int) % spec_size(page_size) == 0,
        start + range.pages * spec_size(page_size) <= 0x1_0000_0000_0000,
        range.start + range.pages * spec_size(page_size) <= PHYS_CEILING,
    ensures
        final(alloc).inv(),
        final(alloc).supply() == old(alloc).supply(),
        arena_wf(final(pt)@),
        supply_ok(final(pt)@, final(alloc).remaining()),
        final(pt)@.tables.len() + final(alloc).remaining().len() <= usize::MAX,
        ({
            let o = spec_map_interval(
                old(pt)@,
                old(alloc).remaining(),
                start,
                range.start,
                range.pages as int,
                page_size,
                flags,
            );
            &&& final(pt)@ == o.arena
            &&& final(alloc).cursor() == old(alloc).cursor() + o.consumed
            &&& 0 <= o.consumed <= old(alloc).remaining().len()
            &&& (r is Ok <==> o.err is None)
            &&& (r is Err ==> o.err == Some(r->Err_0))
        }),
        r is Ok ==> forall|i: int|
            0 <= i < range.pages ==> #[trigger] walk(
                final(pt)@,
                (start + i * spec_size(page_size)) as u64,
            ) == Some(
                (leaf_for((range.start + i * spec_size(page_size)) as u64, flags, page_size),
                page_size),
            ),
        r is Ok ==> r->Ok_0.start == start,
        r is Ok ==> r->Ok_0.end as int == if range.pages > 0 {
            start + (range.pages - 1) * spec_size(page_size)
        } else {
            start as int
        },
{
    let size: u64 = page_size.size();
    match mmap(pt, alloc, start, range.start, range.pages, page_size, flags) {
        Ok(()) => {
            proof {
                if range.pages > 0 {
                    assert((range.pages - 1) * spec_size(page_size) + spec_size(page_size)
                        == range.pages * spec_size(page_size)) by (nonlinear_arith);
                }
            }
            let end: u64 = if range.pages > 0 {
                start + (range.pages - 1) * size
            } else {
                start
            };
            Ok(PageRange { start, end })
        },
        Err(e) => Err(e),
    }
}

} // verus!
