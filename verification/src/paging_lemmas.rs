//! Proofs about the arena: how pushing a zeroed table, linking it, and
//! writing a leaf change (or provably do not change) the translation walk
//! and the arena invariant.

use vstd::prelude::*;
use crate::page_size::{leaf_level, spec_size, PageSize};
use crate::paging::{
    arena_wf, child_of, entry_wf, has_addr, is_node, leaf_for, path_table, path_to, push_table,
    same_path, slot_at, spec_map_page_rec, supply_ok, upd_entry, walk, walk_from, zero_table,
    ArenaView, Entry, MapError, PageFlags, TableView,
};

verus! {

/// `b` equals `a` in every table and entry, except possibly entry `es` of
/// table `et` (levels, addresses and lengths all kept).
pub open spec fn tables_eq_except(a: ArenaView, b: ArenaView, et: int, es: int) -> bool {
    &&& b.tables.len() == a.tables.len()
    &&& 0 <= et < a.tables.len()
    &&& 0 <= es < a.tables[et].entries.len()
    &&& forall|i: int| 0 <= i < a.tables.len() && i != et ==> b.tables[i] == a.tables[i]
    &&& b.tables[et].level == a.tables[et].level
    &&& b.tables[et].addr == a.tables[et].addr
    &&& b.tables[et].entries.len() == a.tables[et].entries.len()
    &&& forall|j: int|
        0 <= j < a.tables[et].entries.len() && j != es ==> b.tables[et].entries[j]
            == a.tables[et].entries[j]
}

/// The walk of `w` started at `(l, t)` reads entry `(et, es)` at some step.
pub open spec fn reads_cell(a: ArenaView, l: int, t: int, w: u64, et: int, es: int) -> bool
    decreases l,
{
    if l < 1 || !(0 <= t < a.tables.len()) {
        false
    } else {
        ||| (t == et && slot_at(l, w) == es)
        ||| (match a.tables[t].entries[slot_at(l, w)] {
            Entry::Node { child, .. } => l >= 2 && reads_cell(a, l - 1, child as int, w, et, es),
            _ => false,
        })
    }
}

/// A walk that never reads the one changed cell is unchanged.
pub proof fn lemma_walk_avoid(a: ArenaView, b: ArenaView, et: int, es: int, l: int, t: int, w: u64)
    requires
        arena_wf(a),
        tables_eq_except(a, b, et, es),
        !reads_cell(a, l, t, w, et, es),
    ensures
        walk_from(b, l, t, w) == walk_from(a, l, t, w),
    decreases l,
{
    if l < 1 || !(0 <= t < a.tables.len()) {
    } else {
        let s0 = slot_at(l, w);
        assert(0 <= s0 < 512);
        assert(a.tables[t].entries.len() == 512);
        assert(b.tables[t].entries[s0] == a.tables[t].entries[s0]);
        match a.tables[t].entries[s0] {
            Entry::Node { child, .. } => {
                if l >= 2 {
                    lemma_walk_avoid(a, b, et, es, l - 1, child as int, w);
                }
            },
            _ => {},
        }
    }
}

/// Appending a table does not change any walk started inside the old arena.
pub proof fn lemma_walk_push(a: ArenaView, tb: TableView, l: int, t: int, w: u64)
    requires
        arena_wf(a),
        1 <= l <= 4,
        0 <= t < a.tables.len(),
        a.tables[t].level == l,
    ensures
        walk_from(ArenaView { tables: a.tables.push(tb) }, l, t, w) == walk_from(a, l, t, w),
    decreases l,
{
    let b = ArenaView { tables: a.tables.push(tb) };
    let s0 = slot_at(l, w);
    assert(0 <= s0 < 512);
    assert(b.tables[t] == a.tables[t]);
    match a.tables[t].entries[s0] {
        Entry::Node { child, .. } => {
            assert(entry_wf(a, a.tables[t].level, a.tables[t].entries[s0]));
            if l >= 2 {
                lemma_walk_push(a, tb, l - 1, child as int, w);
            }
        },
        _ => {},
    }
}

/// Turning one empty entry into a node that points at an all-empty table
/// changes no walk: the walk either still misses it, or now descends into
/// emptiness and ends in `None` exactly as before.
pub proof fn lemma_walk_link(
    a: ArenaView,
    b: ArenaView,
    et: int,
    es: int,
    c: int,
    l: int,
    t: int,
    w: u64,
)
    requires
        arena_wf(a),
        tables_eq_except(a, b, et, es),
        a.tables[et].entries[es] == Entry::Empty,
        is_node(b.tables[et].entries[es]),
        child_of(b.tables[et].entries[es]) == c,
        0 <= c < a.tables.len(),
        c != et,
        a.tables[c].entries.len() == 512,
        forall|j: int| 0 <= j < 512 ==> a.tables[c].entries[j] == Entry::Empty,
        1 <= l <= 4,
        0 <= t < a.tables.len(),
        a.tables[t].level == l,
    ensures
        walk_from(b, l, t, w) == walk_from(a, l, t, w),
    decreases l,
{
    let s0 = slot_at(l, w);
    assert(0 <= s0 < 512);
    if t == et && s0 == es {
        assert(walk_from(a, l, t, w) is None);
        if l >= 2 {
            assert(b.tables[c] == a.tables[c]);
            assert(b.tables[c].entries[slot_at(l - 1, w)] == Entry::Empty);
            assert(walk_from(b, l - 1, c, w) is None);
        }
        assert(walk_from(b, l, t, w) is None);
    } else {
        assert(b.tables[t].entries[s0] == a.tables[t].entries[s0]);
        match a.tables[t].entries[s0] {
            Entry::Node { child, .. } => {
                assert(entry_wf(a, a.tables[t].level, a.tables[t].entries[s0]));
                if l >= 2 {
                    lemma_walk_link(a, b, et, es, c, l - 1, child as int, w);
                }
            },
            _ => {},
        }
    }
}

/// A path through present node entries survives any change that only grows
/// the arena and only rewrites entries that were empty.
pub proof fn lemma_path_preserved(a: ArenaView, b: ArenaView, v: u64, l: int, t: int)
    requires
        arena_wf(a),
        path_to(a, v, l, t),
        1 <= l <= 4,
        a.tables.len() <= b.tables.len(),
        forall|i: int|
            0 <= i < a.tables.len() ==> (#[trigger] b.tables[i]).entries.len()
                == a.tables[i].entries.len(),
        forall|i: int, j: int|
            0 <= i < a.tables.len() && 0 <= j < a.tables[i].entries.len() && is_node(
                #[trigger] a.tables[i].entries[j],
            ) ==> b.tables[i].entries[j] == a.tables[i].entries[j],
    ensures
        path_to(b, v, l, t),
    decreases 4 - l,
{
    if l >= 4 {
    } else {
        let u = path_table(a, v, l + 1);
        lemma_path_level(a, v, l + 1, u);
        lemma_path_preserved(a, b, v, l + 1, u);
        assert(0 <= slot_at(l + 1, v) < 512);
        assert(b.tables[u].entries[slot_at(l + 1, v)] == a.tables[u].entries[slot_at(l + 1, v)]);
        assert(path_table(b, v, l) == t);
    }
}

/// Along a path, the table reached at level `l` really is a level-`l` table
/// of the arena.
pub proof fn lemma_path_level(a: ArenaView, v: u64, l: int, t: int)
    requires
        arena_wf(a),
        path_to(a, v, l, t),
        1 <= l <= 4,
    ensures
        0 <= t < a.tables.len(),
        a.tables[t].level == l,
    decreases 4 - l,
{
    if l >= 4 {
    } else {
        let u = path_table(a, v, l + 1);
        lemma_path_level(a, v, l + 1, u);
        assert(0 <= slot_at(l + 1, v) < 512);
        assert(entry_wf(a, a.tables[u].level, a.tables[u].entries[slot_at(l + 1, v)]));
    }
}

/// An entry stays well-formed when table levels and addresses are kept.
pub proof fn lemma_entry_wf_same_levels(a: ArenaView, b: ArenaView, lvl: u8, e: Entry)
    requires
        entry_wf(a, lvl, e),
        b.tables.len() == a.tables.len(),
        forall|k: int|
            0 <= k < a.tables.len() ==> (#[trigger] b.tables[k]).level == a.tables[k].level
                && b.tables[k].addr == a.tables[k].addr,
    ensures
        entry_wf(b, lvl, e),
{
    match e {
        Entry::Node { child, .. } => {
            assert(b.tables[child as int].level == a.tables[child as int].level);
            assert(b.tables[child as int].addr == a.tables[child as int].addr);
        },
        _ => {},
    }
}

/// An entry stays well-formed when the arena only grows and table levels
/// and addresses are kept.
pub proof fn lemma_entry_wf_same_levels_grow(a: ArenaView, b: ArenaView, lvl: u8, e: Entry)
    requires
        entry_wf(a, lvl, e),
        a.tables.len() <= b.tables.len(),
        forall|k: int|
            0 <= k < a.tables.len() ==> (#[trigger] b.tables[k]).level == a.tables[k].level
                && b.tables[k].addr == a.tables[k].addr,
    ensures
        entry_wf(b, lvl, e),
{
    match e {
        Entry::Node { child, .. } => {
            assert(b.tables[child as int].level == a.tables[child as int].level);
            assert(b.tables[child as int].addr == a.tables[child as int].addr);
        },
        _ => {},
    }
}

/// Pushing a fresh, zeroed, unaliased table preserves the arena invariant.
pub proof fn lemma_wf_push(a: ArenaView, level: u8, addr: u64)
    requires
        arena_wf(a),
        1 <= level <= 3,
        (addr as int) % 0x1000 == 0,
        addr < crate::paging::PHYS_CEILING,
        !has_addr(a, addr),
    ensures
        arena_wf(push_table(a, level, addr)),
        forall|x: u64| has_addr(push_table(a, level, addr), x) <==> has_addr(a, x) || x == addr,
{
    let b = push_table(a, level, addr);
    let n = a.tables.len() as int;
    assert forall|i: int, j: int| 0 <= i < b.tables.len() && 0 <= j < 512 implies entry_wf(
        b,
        b.tables[i].level,
        #[trigger] b.tables[i].entries[j],
    ) by {
        if i < n {
            assert(b.tables[i] == a.tables[i]);
            assert(entry_wf(a, a.tables[i].level, a.tables[i].entries[j]));
            assert(forall|k: int|
                0 <= k < n ==> (#[trigger] b.tables[k]).level == a.tables[k].level
                    && b.tables[k].addr == a.tables[k].addr);
            lemma_entry_wf_same_levels_grow(a, b, a.tables[i].level, a.tables[i].entries[j]);
        } else {
            assert(b.tables[i].entries[j] == Entry::Empty);
        }
    }
    assert forall|i1: int, i2: int|
        0 <= i1 < b.tables.len() && 0 <= i2 < b.tables.len() && i1 != i2 implies (
    #[trigger] b.tables[i1]).addr != (#[trigger] b.tables[i2]).addr by {
        if i1 < n && i2 < n {
        } else if i1 == n {
            assert(b.tables[i2].addr == a.tables[i2].addr);
            assert(!has_addr(a, addr));
        } else {
            assert(b.tables[i1].addr == a.tables[i1].addr);
            assert(!has_addr(a, addr));
        }
    }
    assert forall|x: u64| has_addr(b, x) implies has_addr(a, x) || x == addr by {
        let i = choose|i: int| 0 <= i < b.tables.len() && (#[trigger] b.tables[i]).addr == x;
        if i < n {
            assert(a.tables[i].addr == x);
        }
    }
    assert forall|x: u64| has_addr(a, x) || x == addr implies has_addr(b, x) by {
        if has_addr(a, x) {
            let i = choose|i: int| 0 <= i < a.tables.len() && (#[trigger] a.tables[i]).addr == x;
            assert(b.tables[i].addr == x);
        } else {
            assert(b.tables[n].addr == x);
        }
    }
}

/// Linking a fresh all-empty table from an empty slot one level up preserves
/// the arena invariant.
pub proof fn lemma_wf_link(a: ArenaView, t: int, s: int, c: int, fl: PageFlags)
    requires
        arena_wf(a),
        0 <= t < a.tables.len(),
        0 <= s < 512,
        a.tables[t].entries[s] == Entry::Empty,
        a.tables[t].level >= 2,
        1 <= c < a.tables.len(),
        a.tables[c].level + 1 == a.tables[t].level,
        a.tables.len() <= usize::MAX,
        forall|i: int, j: int|
            0 <= i < a.tables.len() && 0 <= j < 512 && is_node(
                #[trigger] a.tables[i].entries[j],
            ) ==> child_of(a.tables[i].entries[j]) != c,
    ensures
        arena_wf(
            upd_entry(a, t, s, Entry::Node { child: c as usize, addr: a.tables[c].addr, flags: fl }),
        ),
        forall|x: u64|
            has_addr(
                upd_entry(
                    a,
                    t,
                    s,
                    Entry::Node { child: c as usize, addr: a.tables[c].addr, flags: fl },
                ),
                x,
            ) <==> has_addr(a, x),
{
    let e = Entry::Node { child: c as usize, addr: a.tables[c].addr, flags: fl };
    let b = upd_entry(a, t, s, e);
    assert(forall|i: int|
        0 <= i < a.tables.len() ==> (#[trigger] b.tables[i]).level == a.tables[i].level
            && b.tables[i].addr == a.tables[i].addr && b.tables[i].entries.len() == 512);
    assert forall|i: int, j: int| 0 <= i < b.tables.len() && 0 <= j < 512 implies entry_wf(
        b,
        b.tables[i].level,
        #[trigger] b.tables[i].entries[j],
    ) by {
        if i == t && j == s {
            assert(b.tables[i].entries[j] == e);
            assert(b.tables[i].level >= 2);
            assert((c as usize) as int == c);
            assert(b.tables[c].level + 1 == b.tables[i].level);
            assert(a.tables[c].addr == b.tables[c].addr);
            assert(entry_wf(b, b.tables[i].level, e));
        } else {
            assert(b.tables[i].entries[j] == a.tables[i].entries[j]);
            assert(entry_wf(a, a.tables[i].level, a.tables[i].entries[j]));
            lemma_entry_wf_same_levels(a, b, a.tables[i].level, a.tables[i].entries[j]);
        }
    }
    assert forall|i1: int, j1: int, i2: int, j2: int|
        0 <= i1 < b.tables.len() && 0 <= j1 < 512 && 0 <= i2 < b.tables.len() && 0 <= j2 < 512
            && is_node(#[trigger] b.tables[i1].entries[j1]) && is_node(
            #[trigger] b.tables[i2].entries[j2],
        ) && child_of(b.tables[i1].entries[j1]) == child_of(b.tables[i2].entries[j2]) implies i1
        == i2 && j1 == j2 by {
        if (i1 == t && j1 == s) && (i2 == t && j2 == s) {
        } else if i1 == t && j1 == s {
            assert(b.tables[i2].entries[j2] == a.tables[i2].entries[j2]);
            assert(child_of(a.tables[i2].entries[j2]) != c);
        } else if i2 == t && j2 == s {
            assert(b.tables[i1].entries[j1] == a.tables[i1].entries[j1]);
            assert(child_of(a.tables[i1].entries[j1]) != c);
        } else {
            assert(b.tables[i1].entries[j1] == a.tables[i1].entries[j1]);
            assert(b.tables[i2].entries[j2] == a.tables[i2].entries[j2]);
        }
    }
    assert forall|x: u64| has_addr(b, x) <==> has_addr(a, x) by {
        assert(forall|i: int|
            0 <= i < a.tables.len() ==> (#[trigger] b.tables[i]).addr == a.tables[i].addr);
        if has_addr(b, x) {
            let i = choose|i: int| 0 <= i < b.tables.len() && (#[trigger] b.tables[i]).addr == x;
            assert(a.tables[i].addr == x);
        }
        if has_addr(a, x) {
            let i = choose|i: int| 0 <= i < a.tables.len() && (#[trigger] a.tables[i]).addr == x;
            assert(b.tables[i].addr == x);
        }
    }
}

/// Writing a leaf of granularity `g` into an empty slot of a level-matching
/// table preserves the arena invariant.
pub proof fn lemma_wf_leaf(a: ArenaView, t: int, s: int, p: u64, g: PageSize, fl: PageFlags)
    requires
        arena_wf(a),
        0 <= t < a.tables.len(),
        0 <= s < 512,
        a.tables[t].entries[s] == Entry::Empty,
        a.tables[t].level == leaf_level(g),
        (p as int) % spec_size(g) == 0,
        p < crate::paging::PHYS_CEILING,
    ensures
        arena_wf(upd_entry(a, t, s, leaf_for(p, fl, g))),
        forall|x: u64| has_addr(upd_entry(a, t, s, leaf_for(p, fl, g)), x) <==> has_addr(a, x),
{
    let e = leaf_for(p, fl, g);
    let b = upd_entry(a, t, s, e);
    assert forall|i: int, j: int| 0 <= i < b.tables.len() && 0 <= j < 512 implies entry_wf(
        b,
        b.tables[i].level,
        #[trigger] b.tables[i].entries[j],
    ) by {
        if i == t && j == s {
            assert(b.tables[i].entries[j] == e);
            match g {
                PageSize::Normal => {},
                PageSize::Large => {},
                PageSize::Huge => {},
            }
        } else {
            assert(b.tables[i].entries[j] == a.tables[i].entries[j]);
            assert(entry_wf(a, a.tables[i].level, a.tables[i].entries[j]));
            lemma_entry_wf_same_levels(a, b, a.tables[i].level, a.tables[i].entries[j]);
        }
    }
    assert forall|i1: int, j1: int, i2: int, j2: int|
        0 <= i1 < b.tables.len() && 0 <= j1 < 512 && 0 <= i2 < b.tables.len() && 0 <= j2 < 512
            && is_node(#[trigger] b.tables[i1].entries[j1]) && is_node(
            #[trigger] b.tables[i2].entries[j2],
        ) && child_of(b.tables[i1].entries[j1]) == child_of(b.tables[i2].entries[j2]) implies i1
        == i2 && j1 == j2 by {
        assert(!is_node(e));
        if !(i1 == t && j1 == s) && !(i2 == t && j2 == s) {
            assert(b.tables[i1].entries[j1] == a.tables[i1].entries[j1]);
            assert(b.tables[i2].entries[j2] == a.tables[i2].entries[j2]);
        }
    }
    assert forall|x: u64| has_addr(b, x) <==> has_addr(a, x) by {
        assert(forall|i: int|
            0 <= i < a.tables.len() ==> (#[trigger] b.tables[i]).addr == a.tables[i].addr);
        if has_addr(b, x) {
            let i = choose|i: int| 0 <= i < b.tables.len() && (#[trigger] b.tables[i]).addr == x;
            assert(a.tables[i].addr == x);
        }
        if has_addr(a, x) {
            let i = choose|i: int| 0 <= i < a.tables.len() && (#[trigger] a.tables[i]).addr == x;
            assert(b.tables[i].addr == x);
        }
    }
}

/// A walk started in a table strictly below the changed table's level never
/// reads the changed cell.
pub proof fn lemma_no_reads_below(a: ArenaView, l: int, x: int, w: u64, et: int, es: int)
    requires
        arena_wf(a),
        0 <= x < a.tables.len(),
        a.tables[x].level == l,
        0 <= et < a.tables.len(),
        a.tables[et].level > l,
    ensures
        !reads_cell(a, l, x, w, et, es),
    decreases l,
{
    assert(x != et);
    let s0 = slot_at(l, w);
    assert(0 <= s0 < 512);
    match a.tables[x].entries[s0] {
        Entry::Node { child, .. } => {
            assert(entry_wf(a, a.tables[x].level, a.tables[x].entries[s0]));
            if l >= 2 {
                lemma_no_reads_below(a, l - 1, child as int, w, et, es);
            }
        },
        _ => {},
    }
}

/// Writing a leaf of granularity `g` into the empty target slot at the end
/// of the walk path of `v` installs exactly the translations of the
/// addresses that share `v`'s path down to the leaf level, and no others;
/// before the write, those addresses had no translation.
pub proof fn lemma_leaf_write_walk(a: ArenaView, t: int, v: u64, p: u64, g: PageSize, fl: PageFlags)
    requires
        arena_wf(a),
        path_to(a, v, leaf_level(g), t),
        a.tables[t].entries[slot_at(leaf_level(g), v)] == Entry::Empty,
        (p as int) % spec_size(g) == 0,
        p < crate::paging::PHYS_CEILING,
    ensures
        arena_wf(upd_entry(a, t, slot_at(leaf_level(g), v), leaf_for(p, fl, g))),
        forall|w: u64|
            same_path(w, v, g) ==> #[trigger] walk(
                upd_entry(a, t, slot_at(leaf_level(g), v), leaf_for(p, fl, g)),
                w,
            ) == Some((leaf_for(p, fl, g), g)),
        forall|w: u64|
            !same_path(w, v, g) ==> #[trigger] walk(
                upd_entry(a, t, slot_at(leaf_level(g), v), leaf_for(p, fl, g)),
                w,
            ) == walk(a, w),
        forall|w: u64| same_path(w, v, g) ==> #[trigger] walk(a, w) is None,
{
    let ll = leaf_level(g);
    let s = slot_at(ll, v);
    assert(0 <= s < 512);
    lemma_path_level(a, v, ll, t);
    lemma_wf_leaf(a, t, s, p, g, fl);
    let e = leaf_for(p, fl, g);
    let b = upd_entry(a, t, s, e);
    assert(tables_eq_except(a, b, t, s));
    assert(b.tables[t].entries[s] == e);
    assert(t != 0);

    // The node chain that the walk of v follows from the root down to t.
    let t3 = if ll == 3 {
        t
    } else {
        path_table(a, v, 3)
    };
    let t2 = if ll == 2 {
        t
    } else {
        path_table(a, v, 2)
    };
    assert(path_table(a, v, 4) == 0);
    if ll == 3 {
        assert(is_node(a.tables[0].entries[slot_at(4, v)]) && child_of(
            a.tables[0].entries[slot_at(4, v)],
        ) == t) by {
            assert(path_table(a, v, 3) == t);
        }
    } else if ll == 2 {
        assert(path_table(a, v, 2) == t);
        lemma_path_level(a, v, 3, t3);
        assert(is_node(a.tables[0].entries[slot_at(4, v)]) && child_of(
            a.tables[0].entries[slot_at(4, v)],
        ) == t3);
        assert(is_node(a.tables[t3].entries[slot_at(3, v)]) && child_of(
            a.tables[t3].entries[slot_at(3, v)],
        ) == t);
    } else {
        assert(ll == 1);
        assert(path_table(a, v, 1) == t);
        lemma_path_level(a, v, 2, t2);
        lemma_path_level(a, v, 3, t3);
        assert(is_node(a.tables[0].entries[slot_at(4, v)]) && child_of(
            a.tables[0].entries[slot_at(4, v)],
        ) == t3);
        assert(is_node(a.tables[t3].entries[slot_at(3, v)]) && child_of(
            a.tables[t3].entries[slot_at(3, v)],
        ) == t2);
        assert(is_node(a.tables[t2].entries[slot_at(2, v)]) && child_of(
            a.tables[t2].entries[slot_at(2, v)],
        ) == t);
    }

    // Any walk that reads the changed cell shares v's slots down to the leaf
    // level.
    assert forall|w: u64| reads_cell(a, 4, 0, w, t, s) implies same_path(w, v, g) by {
        assert(a.tables[0].level == 4 && a.tables[t].level == ll);
        let s4w = slot_at(4, w);
        assert(0 <= s4w < 512);
        assert(!(0 == t && s4w == s));
        let e4w = a.tables[0].entries[s4w];
        assert(is_node(e4w));
        let c3w = child_of(e4w);
        assert(entry_wf(a, 4u8, e4w));
        assert(a.tables[c3w].level == 3);
        assert(reads_cell(a, 3, c3w, w, t, s));
        if ll == 3 {
            if !(c3w == t && slot_at(3, w) == s) {
                let e3w = a.tables[c3w].entries[slot_at(3, w)];
                assert(is_node(e3w));
                assert(entry_wf(a, 3u8, e3w));
                assert(a.tables[child_of(e3w)].level == 2);
                lemma_no_reads_below(a, 2, child_of(e3w), w, t, s);
            }
            assert(c3w == t && slot_at(3, w) == s);
            assert(s4w == slot_at(4, v));
            assert(slot_at(3, w) == slot_at(3, v));
        } else if ll == 2 {
            assert(c3w != t);
            let e3w = a.tables[c3w].entries[slot_at(3, w)];
            assert(is_node(e3w));
            assert(entry_wf(a, 3u8, e3w));
            let c2w = child_of(e3w);
            assert(a.tables[c2w].level == 2);
            assert(reads_cell(a, 2, c2w, w, t, s));
            if !(c2w == t && slot_at(2, w) == s) {
                let e2w = a.tables[c2w].entries[slot_at(2, w)];
                assert(is_node(e2w));
                assert(entry_wf(a, 2u8, e2w));
                assert(a.tables[child_of(e2w)].level == 1);
                lemma_no_reads_below(a, 1, child_of(e2w), w, t, s);
            }
            assert(c2w == t && slot_at(2, w) == s);
            assert(c3w == t3 && slot_at(3, w) == slot_at(3, v));
            assert(s4w == slot_at(4, v));
        } else {
            assert(c3w != t);
            let e3w = a.tables[c3w].entries[slot_at(3, w)];
            assert(is_node(e3w));
            assert(entry_wf(a, 3u8, e3w));
            let c2w = child_of(e3w);
            assert(a.tables[c2w].level == 2);
            assert(reads_cell(a, 2, c2w, w, t, s));
            assert(c2w != t);
            let e2w = a.tables[c2w].entries[slot_at(2, w)];
            assert(is_node(e2w));
            assert(entry_wf(a, 2u8, e2w));
            let c1w = child_of(e2w);
            assert(a.tables[c1w].level == 1);
            assert(reads_cell(a, 1, c1w, w, t, s));
            assert(c1w == t && slot_at(1, w) == s);
            assert(c2w == t2 && slot_at(2, w) == slot_at(2, v));
            assert(c3w == t3 && slot_at(3, w) == slot_at(3, v));
            assert(s4w == slot_at(4, v));
        }
    }

    assert forall|w: u64| !same_path(w, v, g) implies #[trigger] walk(b, w) == walk(a, w) by {
        lemma_walk_avoid(a, b, t, s, 4, 0, w);
    }

    assert forall|w: u64| same_path(w, v, g) implies #[trigger] walk(b, w) == Some(
        (leaf_for(p, fl, g), g),
    ) && walk(a, w) is None by {
        assert(slot_at(4, w) == slot_at(4, v));
        assert(b.tables[0] == a.tables[0]);
        if ll == 3 {
            assert(g == PageSize::Huge);
            assert(slot_at(3, w) == slot_at(3, v));
            assert(b.tables[t].entries[slot_at(3, w)] == e);
            assert(a.tables[t].entries[slot_at(3, w)] == Entry::Empty);
            assert(walk_from(b, 3, t, w) == Some((e, PageSize::Huge)));
            assert(walk_from(a, 3, t, w) is None);
            assert(walk_from(b, 4, 0, w) == walk_from(b, 3, t, w));
            assert(walk_from(a, 4, 0, w) == walk_from(a, 3, t, w));
        } else if ll == 2 {
            assert(g == PageSize::Large);
            assert(slot_at(3, w) == slot_at(3, v));
            assert(slot_at(2, w) == slot_at(2, v));
            assert(b.tables[t3] == a.tables[t3]);
            assert(b.tables[t].entries[slot_at(2, w)] == e);
            assert(a.tables[t].entries[slot_at(2, w)] == Entry::Empty);
            assert(walk_from(b, 2, t, w) == Some((e, PageSize::Large)));
            assert(walk_from(a, 2, t, w) is None);
            assert(walk_from(b, 3, t3, w) == walk_from(b, 2, t, w));
            assert(walk_from(a, 3, t3, w) == walk_from(a, 2, t, w));
            assert(walk_from(b, 4, 0, w) == walk_from(b, 3, t3, w));
            assert(walk_from(a, 4, 0, w) == walk_from(a, 3, t3, w));
        } else {
            assert(g == PageSize::Normal);
            assert(slot_at(3, w) == slot_at(3, v));
            assert(slot_at(2, w) == slot_at(2, v));
            assert(slot_at(1, w) == slot_at(1, v));
            assert(b.tables[t3] == a.tables[t3]);
            assert(b.tables[t2] == a.tables[t2]);
            assert(b.tables[t].entries[slot_at(1, w)] == e);
            assert(a.tables[t].entries[slot_at(1, w)] == Entry::Empty);
            assert(walk_from(b, 1, t, w) == Some((e, PageSize::Normal)));
            assert(walk_from(a, 1, t, w) is None);
            assert(walk_from(b, 2, t2, w) == walk_from(b, 1, t, w));
            assert(walk_from(a, 2, t2, w) == walk_from(a, 1, t, w));
            assert(walk_from(b, 3, t3, w) == walk_from(b, 2, t2, w));
            assert(walk_from(a, 3, t3, w) == walk_from(a, 2, t2, w));
            assert(walk_from(b, 4, 0, w) == walk_from(b, 3, t3, w));
            assert(walk_from(a, 4, 0, w) == walk_from(a, 3, t3, w));
        }
    }
    assert forall|w: u64| same_path(w, v, g) implies #[trigger] walk(a, w) is None by {
        assert(walk(b, w) == Some((leaf_for(p, fl, g), g)));
    }
}

/// What one page-mapping step guarantees, by induction over the descent:
/// the invariant and the supply's fitness survive; on success exactly the
/// addresses sharing `v`'s path translate to the new leaf and every other
/// walk is untouched; on failure no walk changes at all; and a page whose
/// walk already ends in a leaf is rejected as already mapped, with nothing
/// consumed and nothing changed.
pub proof fn lemma_map_page_props_rec(
    a: ArenaView,
    frames: Seq<u64>,
    l: int,
    t: int,
    v: u64,
    p: u64,
    g: PageSize,
    fl: PageFlags,
)
    requires
        arena_wf(a),
        supply_ok(a, frames),
        a.tables.len() + frames.len() <= usize::MAX,
        leaf_level(g) <= l <= 4,
        path_to(a, v, l, t),
        (p as int) % spec_size(g) == 0,
        p < crate::paging::PHYS_CEILING,
    ensures
        ({
            let o = spec_map_page_rec(a, frames, l, t, v, p, g, fl);
            &&& arena_wf(o.arena)
            &&& 0 <= o.consumed <= frames.len()
            &&& o.consumed <= l - leaf_level(g)
            &&& o.arena.tables.len() == a.tables.len() + o.consumed
            &&& supply_ok(o.arena, frames.skip(o.consumed))
            &&& (o.err is Some ==> forall|w: u64| #[trigger] walk(o.arena, w) == walk(a, w))
            &&& (o.err is None ==> forall|w: u64|
                same_path(w, v, g) ==> #[trigger] walk(o.arena, w) == Some((leaf_for(p, fl, g), g)))
            &&& (o.err is None ==> forall|w: u64|
                !same_path(w, v, g) ==> #[trigger] walk(o.arena, w) == walk(a, w))
            &&& (o.err is None ==> forall|w: u64|
                same_path(w, v, g) ==> #[trigger] walk(a, w) is None)
            &&& (walk_from(a, l, t, v) is Some ==> o.err == Some(MapError::AlreadyMapped)
                && o.arena == a && o.consumed == 0)
        }),
    decreases l,
{
    lemma_path_level(a, v, l, t);
    let ll = leaf_level(g);
    let s = slot_at(l, v);
    assert(0 <= s < 512);
    let e = a.tables[t].entries[s];
    let o = spec_map_page_rec(a, frames, l, t, v, p, g, fl);
    if l == ll {
        match e {
            Entry::Empty => {
                lemma_leaf_write_walk(a, t, v, p, g, fl);
                lemma_wf_leaf(a, t, s, p, g, fl);
                let b = upd_entry(a, t, s, leaf_for(p, fl, g));
                assert(o.arena == b && o.consumed == 0 && o.err is None);
                assert(frames.skip(0) =~= frames);
                assert(supply_ok(b, frames)) by {
                    assert(forall|x: u64| has_addr(b, x) <==> has_addr(a, x));
                }
                assert(b.tables.len() == a.tables.len());
                assert(walk_from(a, l, t, v) is None);
            },
            _ => {
                assert(o.arena == a && o.consumed == 0);
                assert(frames.skip(0) =~= frames);
            },
        }
    } else {
        match e {
            Entry::Node { child, .. } => {
                assert(entry_wf(a, a.tables[t].level, e));
                assert(path_table(a, v, l - 1) == child as int);
                lemma_map_page_props_rec(a, frames, l - 1, child as int, v, p, g, fl);
                assert(o == spec_map_page_rec(a, frames, l - 1, child as int, v, p, g, fl));
                if walk_from(a, l, t, v) is Some {
                    assert(walk_from(a, l - 1, child as int, v) is Some);
                }
            },
            Entry::Leaf { .. } => {
                assert(o.arena == a && o.consumed == 0 && o.err == Some(MapError::AlreadyMapped));
                assert(frames.skip(0) =~= frames);
            },
            Entry::Empty => {
                assert(walk_from(a, l, t, v) is None);
                if frames.len() == 0 {
                    assert(o.arena == a && o.consumed == 0);
                    assert(frames.skip(0) =~= frames);
                } else {
                    let c = a.tables.len() as int;
                    let lv = (l - 1) as u8;
                    let tb = zero_table(lv, frames[0]);
                    let a1 = push_table(a, lv, frames[0]);
                    lemma_wf_push(a, lv, frames[0]);
                    assert forall|w: u64| #[trigger] walk(a1, w) == walk(a, w) by {
                        lemma_walk_push(a, tb, 4, 0, w);
                    }
                    lemma_path_preserved(a, a1, v, l, t);
                    let nd = Entry::Node { child: c as usize, addr: frames[0], flags: fl };
                    let a2 = upd_entry(a1, t, s, nd);
                    assert(a1.tables[c].addr == frames[0]);
                    assert(a1.tables[c].level + 1 == a1.tables[t].level);
                    assert forall|i: int, j: int|
                        0 <= i < a1.tables.len() && 0 <= j < 512 && is_node(
                            #[trigger] a1.tables[i].entries[j],
                        ) implies child_of(a1.tables[i].entries[j]) != c by {
                        if i < a.tables.len() {
                            assert(a1.tables[i].entries[j] == a.tables[i].entries[j]);
                            assert(entry_wf(a, a.tables[i].level, a.tables[i].entries[j]));
                        } else {
                            assert(a1.tables[i].entries[j] == Entry::Empty);
                        }
                    }
                    lemma_wf_link(a1, t, s, c, fl);
                    assert(tables_eq_except(a1, a2, t, s));
                    assert forall|w: u64| #[trigger] walk(a2, w) == walk(a1, w) by {
                        lemma_walk_link(a1, a2, t, s, c, 4, 0, w);
                    }
                    lemma_path_preserved(a1, a2, v, l, t);
                    assert(path_table(a2, v, l - 1) == c) by {
                        assert(a2.tables[t].entries[s] == nd);
                    }
                    assert(supply_ok(a2, frames.skip(1))) by {
                        assert(forall|x: u64|
                            has_addr(a2, x) <==> has_addr(a1, x));
                        assert(forall|x: u64|
                            has_addr(a1, x) <==> has_addr(a, x) || x == frames[0]);
                        assert(forall|k: int|
                            0 <= k < frames.skip(1).len() ==> frames.skip(1)[k] == frames[k + 1]);
                    }
                    assert(a2.tables.len() == a.tables.len() + 1);
                    lemma_map_page_props_rec(a2, frames.skip(1), l - 1, c, v, p, g, fl);
                    let o2 = spec_map_page_rec(a2, frames.skip(1), l - 1, c, v, p, g, fl);
                    assert(o.arena == o2.arena && o.consumed == o2.consumed + 1 && o.err
                        == o2.err);
                    assert(frames.skip(1).skip(o2.consumed) =~= frames.skip(o2.consumed + 1));
                    assert(o.arena.tables.len() == a.tables.len() + o.consumed);
                    if o2.err is Some {
                        assert(forall|w: u64| #[trigger] walk(o.arena, w) == walk(a, w));
                    } else {
                        assert forall|w: u64| !same_path(w, v, g) implies #[trigger] walk(
                            o.arena,
                            w,
                        ) == walk(a, w) by {
                            assert(walk(o2.arena, w) == walk(a2, w));
                        }
                        assert forall|w: u64| same_path(w, v, g) implies #[trigger] walk(a, w)
                            is None by {
                            assert(walk(a2, w) is None);
                        }
                    }
                }
            },
        }
    }
}

/// Base-512 digit reconstruction: four equal digits below 512^4 pin the
/// number down.
proof fn lemma_digits4(q1: int, q2: int)
    requires
        0 <= q1 < 0x10_0000_0000,
        0 <= q2 < 0x10_0000_0000,
        q1 % 512 == q2 % 512,
        (q1 / 512) % 512 == (q2 / 512) % 512,
        (q1 / 0x40000) % 512 == (q2 / 0x40000) % 512,
        q1 / 0x8000000 == q2 / 0x8000000,
    ensures
        q1 == q2,
{
    vstd::arithmetic::div_mod::lemma_div_denominator(q1, 512, 512);
    vstd::arithmetic::div_mod::lemma_div_denominator(q2, 512, 512);
    vstd::arithmetic::div_mod::lemma_div_denominator(q1, 0x40000, 512);
    vstd::arithmetic::div_mod::lemma_div_denominator(q2, 0x40000, 512);
    vstd::arithmetic::div_mod::lemma_fundamental_div_mod(q1 / 0x40000, 512);
    vstd::arithmetic::div_mod::lemma_fundamental_div_mod(q2 / 0x40000, 512);
    assert(q1 / 0x40000 == q2 / 0x40000);
    vstd::arithmetic::div_mod::lemma_fundamental_div_mod(q1 / 512, 512);
    vstd::arithmetic::div_mod::lemma_fundamental_div_mod(q2 / 512, 512);
    assert(q1 / 512 == q2 / 512);
    vstd::arithmetic::div_mod::lemma_fundamental_div_mod(q1, 512);
    vstd::arithmetic::div_mod::lemma_fundamental_div_mod(q2, 512);
}

/// Two granularity-aligned page addresses below the 48-bit addressing span
/// that share the whole index path are the same address: distinct pages of
/// one granularity never collide in the tree.
pub proof fn lemma_same_path_inj(w1: u64, w2: u64, g: PageSize)
    requires
        (w1 as int) % spec_size(g) == 0,
        (w2 as int) % spec_size(g) == 0,
        w1 < 0x1_0000_0000_0000,
        w2 < 0x1_0000_0000_0000,
        same_path(w1, w2, g),
    ensures
        w1 == w2,
{
    let x = w1 as int;
    let y = w2 as int;
    let u = spec_size(g);
    let q1 = x / u;
    let q2 = y / u;
    vstd::arithmetic::div_mod::lemma_fundamental_div_mod(x, u);
    vstd::arithmetic::div_mod::lemma_fundamental_div_mod(y, u);
    assert(x == u * q1 && y == u * q2);
    match g {
        PageSize::Normal => {
            vstd::arithmetic::div_mod::lemma_div_denominator(x, 0x1000, 512);
            vstd::arithmetic::div_mod::lemma_div_denominator(y, 0x1000, 512);
            vstd::arithmetic::div_mod::lemma_div_denominator(x, 0x1000, 0x40000);
            vstd::arithmetic::div_mod::lemma_div_denominator(y, 0x1000, 0x40000);
            vstd::arithmetic::div_mod::lemma_div_denominator(x, 0x1000, 0x8000000);
            vstd::arithmetic::div_mod::lemma_div_denominator(y, 0x1000, 0x8000000);
            assert(q1 / 512 == x / 0x20_0000 && q2 / 512 == y / 0x20_0000);
            assert(q1 / 0x40000 == x / 0x4000_0000 && q2 / 0x40000 == y / 0x4000_0000);
            assert(q1 / 0x8000000 == x / 0x80_0000_0000 && q2 / 0x8000000 == y / 0x80_0000_0000);
            assert(q1 < 0x10_0000_0000 && q2 < 0x10_0000_0000) by (nonlinear_arith)
                requires
                    0 <= x < 0x1_0000_0000_0000,
                    0 <= y < 0x1_0000_0000_0000,
                    q1 == x / 0x1000,
                    q2 == y / 0x1000,
            ;
            assert(q1 / 0x8000000 < 512 && q2 / 0x8000000 < 512);
            assert(q1 / 0x8000000 == q2 / 0x8000000);
            lemma_digits4(q1, q2);
        },
        PageSize::Large => {
            vstd::arithmetic::div_mod::lemma_div_denominator(x, 0x20_0000, 512);
            vstd::arithmetic::div_mod::lemma_div_denominator(y, 0x20_0000, 512);
            vstd::arithmetic::div_mod::lemma_div_denominator(x, 0x20_0000, 0x40000);
            vstd::arithmetic::div_mod::lemma_div_denominator(y, 0x20_0000, 0x40000);
            assert(q1 / 512 == x / 0x4000_0000 && q2 / 512 == y / 0x4000_0000);
            assert(q1 / 0x40000 == x / 0x80_0000_0000 && q2 / 0x40000 == y / 0x80_0000_0000);
            assert(q1 < 0x8000000 && q2 < 0x8000000) by (nonlinear_arith)
                requires
                    0 <= x < 0x1_0000_0000_0000,
                    0 <= y < 0x1_0000_0000_0000,
                    q1 == x / 0x20_0000,
                    q2 == y / 0x20_0000,
            ;
            assert(q1 / 0x40000 < 512 && q2 / 0x40000 < 512);
            assert(q1 / 0x40000 == q2 / 0x40000);
            vstd::arithmetic::div_mod::lemma_fundamental_div_mod(q1 / 512, 512);
            vstd::arithmetic::div_mod::lemma_fundamental_div_mod(q2 / 512, 512);
            vstd::arithmetic::div_mod::lemma_div_denominator(q1, 512, 512);
            vstd::arithmetic::div_mod::lemma_div_denominator(q2, 512, 512);
            assert(q1 / 512 == q2 / 512);
            vstd::arithmetic::div_mod::lemma_fundamental_div_mod(q1, 512);
            vstd::arithmetic::div_mod::lemma_fundamental_div_mod(q2, 512);
        },
        PageSize::Huge => {
            vstd::arithmetic::div_mod::lemma_div_denominator(x, 0x4000_0000, 512);
            vstd::arithmetic::div_mod::lemma_div_denominator(y, 0x4000_0000, 512);
            assert(q1 / 512 == x / 0x80_0000_0000 && q2 / 512 == y / 0x80_0000_0000);
            assert(q1 < 0x40000 && q2 < 0x40000) by (nonlinear_arith)
                requires
                    0 <= x < 0x1_0000_0000_0000,
                    0 <= y < 0x1_0000_0000_0000,
                    q1 == x / 0x4000_0000,
                    q2 == y / 0x4000_0000,
            ;
            assert(q1 / 512 < 512 && q2 / 512 < 512);
            assert(q1 / 512 == q2 / 512);
            vstd::arithmetic::div_mod::lemma_fundamental_div_mod(q1, 512);
            vstd::arithmetic::div_mod::lemma_fundamental_div_mod(q2, 512);
        },
    }
}

} // verus!
