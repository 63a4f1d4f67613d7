//! Forward-only physical frame allocator: a cursor over the expanded supply
//! of Normal-size frames, valid only while the table tree is under
//! construction. Which frames it has spent is reported explicitly through
//! `spent`, so the allocator that runs after the paging switch knows what is
//! permanently dedicated to paging structures.

use vstd::prelude::*;

verus! {

pub struct PhysFrameAllocator {
    frames: Vec<u64>,
    next: usize,
}

impl PhysFrameAllocator {
    /// The whole frame supply, in allocation order.
    pub closed spec fn supply(&self) -> Seq<u64> {
        self.frames@
    }

    /// How many frames have been handed out.
    pub closed spec fn cursor(&self) -> int {
        self.next as int
    }

    pub open spec fn inv(&self) -> bool {
        0 <= self.cursor() <= self.supply().len()
    }

    /// Frames not yet handed out, in the order they will be handed out.
    pub open spec fn remaining(&self) -> Seq<u64> {
        self.supply().skip(self.cursor())
    }

    /// Frames already handed out: after the paging switch these belong to
    /// the table tree and must never be reused.
    pub open spec fn spent(&self) -> Seq<u64> {
        self.supply().take(self.cursor())
    }

    pub fn new(frames: Vec<u64>) -> (a: Self)
        ensures
            a.supply() == frames@,
            a.cursor() == 0,
            a.inv(),
    {
        PhysFrameAllocator { frames, next: 0 }
    }

    /// The next frame of the supply, or `None` once it is exhausted.
    pub fn allocate_frame(&mut self) -> (r: Option<u64>)
        requires
            old(self).inv(),
        ensures
            final(self).inv(),
            final(self).supply() == old(self).supply(),
            old(self).remaining().len() > 0 ==> r == Some(old(self).remaining()[0])
                && final(self).cursor() == old(self).cursor() + 1,
            old(self).remaining().len() == 0 ==> r is None && final(self).cursor() == old(
                self,
            ).cursor(),
    {
        if self.next < self.frames.len() {
            let f: u64 = self.frames[self.next];
            self.next = self.next + 1;
            Some(f)
        } else {
            None
        }
    }

    /// How many frames have been spent on paging structures so far.
    pub fn used(&self) -> (n: usize)
        ensures
            n == self.cursor(),
    {
        self.next
    }

    /// Total size of the supply.
    pub fn supply_len(&self) -> (n: usize)
        ensures
            n == self.supply().len(),
    {
        self.frames.len()
    }
}

} // verus!
