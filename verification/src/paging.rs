//! The four-level page-table tree, modeled as an arena of fixed-size table
//! slots. Each slot is one physical frame holding 512 entries; parent
//! entries name their child both by arena index (the reference the proofs
//! walk) and by the child frame's physical address (what the hardware will
//! walk). A table is fully zeroed before it is linked from a parent, so a
//! half-initialized table is never observable.

use vstd::prelude::*;
use crate::page_size::{leaf_level, spec_size, PageSize};

verus! {

/// Physical addresses stay below 2^52.
pub const PHYS_CEILING: u64 = 0x0010_0000_0000_0000;

/// Permission flags of a mapping: writable and no-execute. The huge-page
/// marker is kept on the leaf entry itself.
#[derive(Clone, Copy, PartialEq, Eq, Structural, Debug)]
pub struct PageFlags {
    pub writable: bool,
    pub no_execute: bool,
}

/// One of 512 slots of a table.
#[derive(Clone, Copy, PartialEq, Eq, Structural, Debug)]
pub enum Entry {
    /// Not present.
    Empty,
    /// A present non-leaf entry: owns the next-level table it points to.
    Node { child: usize, addr: u64, flags: PageFlags },
    /// A present leaf entry: maps a physical frame. `huge` marks Large and
    /// Huge leaves (levels 2 and 3); Normal leaves at level 1 leave it
    /// clear.
    Leaf { addr: u64, flags: PageFlags, huge: bool },
}

/// Why a mapping request failed. Every failure is terminal for the boot
/// phase; no partial-mapping rollback is attempted.
#[derive(Clone, Copy, PartialEq, Eq, Structural, Debug)]
pub enum MapError {
    /// The frame supply ran out while creating an intermediate table.
    AllocatorExhausted,
    /// The requested walk ran into an already-present entry.
    AlreadyMapped,
    /// The back-to-back mapping mode was invoked with zero ranges.
    EmptyRanges,
}

/// One table slot of the arena: its level (1 to 4), the physical address of
/// the frame holding it, and its 512 entries.
pub struct PageTable {
    pub level: u8,
    pub addr: u64,
    pub entries: Vec<Entry>,
}

/// The arena. `tables[0]` is the root (level-4) table.
pub struct PageTables {
    pub tables: Vec<PageTable>,
}

#[verifier::ext_equal]
pub ghost struct TableView {
    pub level: u8,
    pub addr: u64,
    pub entries: Seq<Entry>,
}

#[verifier::ext_equal]
pub ghost struct ArenaView {
    pub tables: Seq<TableView>,
}

impl View for PageTable {
    type V = TableView;

    open spec fn view(&self) -> TableView {
        TableView { level: self.level, addr: self.addr, entries: self.entries@ }
    }
}

impl View for PageTables {
    type V = ArenaView;

    open spec fn view(&self) -> ArenaView {
        ArenaView { tables: Seq::new(self.tables@.len(), |i: int| self.tables@[i]@) }
    }
}

/// The 9-bit index field of `v` used at table level `l` (level 4 indexes
/// bits 39..48, level 1 bits 12..21).
pub open spec fn slot_at(l: int, v: u64) -> int {
    if l == 4 {
        ((v as int) / 0x80_0000_0000) % 512
    } else if l == 3 {
        ((v as int) / 0x4000_0000) % 512
    } else if l == 2 {
        ((v as int) / 0x20_0000) % 512
    } else {
        ((v as int) / 0x1000) % 512
    }
}

/// Split the virtual address into the level's index field.
pub fn slot_index(l: u8, v: u64) -> (r: usize)
    requires
        1 <= l <= 4,
    ensures
        r as int == slot_at(l as int, v),
        r < 512,
{
    let d: u64 = if l == 4 {
        0x80_0000_0000
    } else if l == 3 {
        0x4000_0000
    } else if l == 2 {
        0x20_0000
    } else {
        0x1000
    };
    ((v / d) % 512) as usize
}

/// The leaf entry a mapping of granularity `g` installs.
pub open spec fn leaf_for(p: u64, fl: PageFlags, g: PageSize) -> Entry {
    Entry::Leaf { addr: p, flags: fl, huge: g != PageSize::Normal }
}

pub open spec fn is_node(e: Entry) -> bool {
    match e {
        Entry::Node { .. } => true,
        _ => false,
    }
}

pub open spec fn child_of(e: Entry) -> int {
    match e {
        Entry::Node { child, .. } => child as int,
        _ => -1,
    }
}

/// Well-formedness of one entry sitting in a table of level `lvl`.
pub open spec fn entry_wf(a: ArenaView, lvl: u8, e: Entry) -> bool {
    match e {
        Entry::Empty => true,
        Entry::Node { child, addr, flags } => {
            &&& lvl >= 2
            &&& 1 <= child < a.tables.len()
            &&& a.tables[child as int].level + 1 == lvl
            &&& addr == a.tables[child as int].addr
        },
        Entry::Leaf { addr, flags, huge } => {
            &&& addr < PHYS_CEILING
            &&& if lvl == 1 {
                !huge && (addr as int) % 0x1000 == 0
            } else if lvl == 2 {
                huge && (addr as int) % 0x20_0000 == 0
            } else {
                lvl == 3 && huge && (addr as int) % 0x4000_0000 == 0
            }
        },
    }
}

/// The arena invariant: a rooted four-level tree. Every table has 512
/// entries and a distinct, aligned frame address; every present non-leaf
/// entry points at exactly one existing table one level down and no table is
/// linked from two parents; leaves carry the huge marker exactly at levels 2
/// and 3 and are aligned to their granularity.
pub open spec fn arena_wf(a: ArenaView) -> bool {
    &&& 1 <= a.tables.len()
    &&& a.tables[0].level == 4
    &&& forall|i: int|
        0 <= i < a.tables.len() ==> (#[trigger] a.tables[i]).entries.len() == 512
    &&& forall|i: int| 0 <= i < a.tables.len() ==> 1 <= (#[trigger] a.tables[i]).level <= 4
    &&& forall|i: int|
        0 <= i < a.tables.len() ==> ((#[trigger] a.tables[i]).addr as int) % 0x1000 == 0
            && a.tables[i].addr < PHYS_CEILING
    &&& forall|i: int, j: int|
        0 <= i < a.tables.len() && 0 <= j < 512 ==> entry_wf(
            a,
            a.tables[i].level,
            #[trigger] a.tables[i].entries[j],
        )
    &&& forall|i1: int, j1: int, i2: int, j2: int|
        0 <= i1 < a.tables.len() && 0 <= j1 < 512 && 0 <= i2 < a.tables.len() && 0 <= j2 < 512
            && is_node(#[trigger] a.tables[i1].entries[j1]) && is_node(
            #[trigger] a.tables[i2].entries[j2],
        ) && child_of(a.tables[i1].entries[j1]) == child_of(a.tables[i2].entries[j2]) ==> i1 == i2
            && j1 == j2
    &&& forall|i1: int, i2: int|
        0 <= i1 < a.tables.len() && 0 <= i2 < a.tables.len() && i1 != i2 ==> (
        #[trigger] a.tables[i1]).addr != (#[trigger] a.tables[i2]).addr
}

/// Some table of the arena sits at physical address `x`.
pub open spec fn has_addr(a: ArenaView, x: u64) -> bool {
    exists|i: int| 0 <= i < a.tables.len() && (#[trigger] a.tables[i]).addr == x
}

/// The frame supply is fit to become new tables: aligned, bounded, mutually
/// distinct, and disjoint from every frame already used by the arena.
pub open spec fn supply_ok(a: ArenaView, frames: Seq<u64>) -> bool {
    &&& forall|k: int|
        0 <= k < frames.len() ==> ((#[trigger] frames[k]) as int) % 0x1000 == 0 && frames[k]
            < PHYS_CEILING && !has_addr(a, frames[k])
    &&& forall|k1: int, k2: int| 0 <= k1 < k2 < frames.len() ==> frames[k1] != frames[k2]
}

/// The walk, started at table `t` which is read with the level-`l` index
/// field: present leaves end it, present nodes continue it one level down.
pub open spec fn walk_from(a: ArenaView, l: int, t: int, w: u64) -> Option<(Entry, PageSize)>
    decreases l,
{
    if l < 1 || !(0 <= t < a.tables.len()) {
        None
    } else {
        let e = a.tables[t].entries[slot_at(l, w)];
        match e {
            Entry::Empty => None,
            Entry::Leaf { huge, .. } => {
                if l == 1 && !huge {
                    Some((e, PageSize::Normal))
                } else if l == 2 && huge {
                    Some((e, PageSize::Large))
                } else if l == 3 && huge {
                    Some((e, PageSize::Huge))
                } else {
                    None
                }
            },
            Entry::Node { child, .. } => {
                if l >= 2 {
                    walk_from(a, l - 1, child as int, w)
                } else {
                    None
                }
            },
        }
    }
}

/// The full walk of a virtual address from the root table: the leaf entry
/// that translates it, with the granularity the leaf was installed at.
pub open spec fn walk(a: ArenaView, w: u64) -> Option<(Entry, PageSize)> {
    walk_from(a, 4, 0, w)
}

/// The table index that the walk of `v` reaches at level `l` by following
/// present node entries from the root, or -1 where the path stops short.
pub open spec fn path_table(a: ArenaView, v: u64, l: int) -> int
    decreases 4 - l,
{
    if l >= 4 {
        0
    } else {
        let u = path_table(a, v, l + 1);
        if u < 0 || u >= a.tables.len() {
            -1
        } else {
            let e = a.tables[u].entries[slot_at(l + 1, v)];
            if is_node(e) {
                child_of(e)
            } else {
                -1
            }
        }
    }
}

/// `t` is the table that the walk of `v` reaches at level `l`.
pub open spec fn path_to(a: ArenaView, v: u64, l: int, t: int) -> bool {
    0 <= t && path_table(a, v, l) == t
}

/// Two addresses select the same entry slots from level 4 down to the leaf
/// level of `g`: they are translated by the same leaf once one is installed.
pub open spec fn same_path(w: u64, v: u64, g: PageSize) -> bool {
    &&& slot_at(4, w) == slot_at(4, v)
    &&& leaf_level(g) <= 3 ==> slot_at(3, w) == slot_at(3, v)
    &&& leaf_level(g) <= 2 ==> slot_at(2, w) == slot_at(2, v)
    &&& leaf_level(g) <= 1 ==> slot_at(1, w) == slot_at(1, v)
}

/// A freshly zeroed table slot.
pub open spec fn zero_table(level: u8, addr: u64) -> TableView {
    TableView { level, addr, entries: Seq::new(512, |i: int| Entry::Empty) }
}

/// The arena with one entry replaced.
pub open spec fn upd_entry(a: ArenaView, t: int, s: int, e: Entry) -> ArenaView {
    ArenaView {
        tables: a.tables.update(
            t,
            TableView {
                level: a.tables[t].level,
                addr: a.tables[t].addr,
                entries: a.tables[t].entries.update(s, e),
            },
        ),
    }
}

/// The arena with a freshly zeroed table appended.
pub open spec fn push_table(a: ArenaView, level: u8, addr: u64) -> ArenaView {
    ArenaView { tables: a.tables.push(zero_table(level, addr)) }
}

/// Outcome of a mapping step: the arena afterwards, how many supply frames
/// it consumed, and the error if it failed. On failure, tables created
/// before the failing step stay in place (they are walk-invisible), matching
/// the no-rollback behaviour of the phase.
#[verifier::ext_equal]
pub ghost struct MapOutcome {
    pub arena: ArenaView,
    pub consumed: int,
    pub err: Option<MapError>,
}

/// One page mapped, as a recursive descent from level `l` at table `t`:
/// an empty slot above the leaf level takes a fresh zeroed table from the
/// supply; a present node is followed; any present entry in the way — a leaf
/// above the target level, or anything at the target slot — is the
/// double-mapping error; an empty supply is the exhaustion error.
pub open spec fn spec_map_page_rec(
    a: ArenaView,
    frames: Seq<u64>,
    l: int,
    t: int,
    v: u64,
    p: u64,
    g: PageSize,
    fl: PageFlags,
) -> MapOutcome
    decreases l,
{
    if l < 1 {
        MapOutcome { arena: a, consumed: 0, err: Some(MapError::AlreadyMapped) }
    } else {
        let s = slot_at(l, v);
        let e = a.tables[t].entries[s];
        if l == leaf_level(g) {
            match e {
                Entry::Empty => MapOutcome {
                    arena: upd_entry(a, t, s, leaf_for(p, fl, g)),
                    consumed: 0,
                    err: None,
                },
                _ => MapOutcome { arena: a, consumed: 0, err: Some(MapError::AlreadyMapped) },
            }
        } else {
            match e {
                Entry::Node { child, .. } => spec_map_page_rec(
                    a,
                    frames,
                    l - 1,
                    child as int,
                    v,
                    p,
                    g,
                    fl,
                ),
                Entry::Leaf { .. } => MapOutcome {
                    arena: a,
                    consumed: 0,
                    err: Some(MapError::AlreadyMapped),
                },
                Entry::Empty => {
                    if frames.len() == 0 {
                        MapOutcome { arena: a, consumed: 0, err: Some(MapError::AllocatorExhausted) }
                    } else {
                        let c = a.tables.len() as int;
                        let a1 = push_table(a, (l - 1) as u8, frames[0]);
                        let a2 = upd_entry(
                            a1,
                            t,
                            s,
                            Entry::Node { child: c as usize, addr: frames[0], flags: fl },
                        );
                        let o = spec_map_page_rec(a2, frames.skip(1), l - 1, c, v, p, g, fl);
                        MapOutcome { arena: o.arena, consumed: o.consumed + 1, err: o.err }
                    }
                },
            }
        }
    }
}

/// One page of granularity `g` mapped from the root: virtual page `v` to
/// physical frame `p`.
pub open spec fn spec_map_page(
    a: ArenaView,
    frames: Seq<u64>,
    v: u64,
    p: u64,
    g: PageSize,
    fl: PageFlags,
) -> MapOutcome {
    spec_map_page_rec(a, frames, 4, 0, v, p, g, fl)
}

} // verus!
