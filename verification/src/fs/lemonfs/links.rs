//! Link pointers and the chains of link blocks that hold a file's extents.

use vstd::prelude::*;
use super::disk::{LinkBlock, LinkPointer};

verus! {

impl LinkPointer {
    /// A pointer is valid when it points somewhere (`start != 0`).
    pub fn is_valid(&self) -> (r: bool)
        ensures r == (self.start != 0),
    {
        self.start != 0
    }

    /// A pointer is direct when it holds data (`size != 0`); otherwise it points to a `LinkBlock`.
    pub fn is_direct(&self) -> (r: bool)
        ensures r == (self.size != 0),
    {
        self.size != 0
    }

    /// The pointer to `size` bytes at `start`.
    pub fn new(start: u64, size: u64) -> (r: Self)
        ensures r == (LinkPointer { start, size }),
    {
        Self { start, size }
    }
}

/// The data pointers among the first 31 slots of a link block: valid and direct ones, in order.
pub open spec fn direct_slots(slots: Seq<LinkPointer>) -> Seq<LinkPointer>
    decreases slots.len(),
{
    if slots.len() == 0 {
        Seq::empty()
    } else {
        let rest = direct_slots(slots.drop_last());
        let p = slots.last();
        if p.start != 0 && p.size != 0 { rest.push(p) } else { rest }
    }
}

impl LinkBlock {
    /// The data pointers of the block: the valid direct pointers among its first 31 slots.
    pub fn direct_pointers(&self) -> (r: Vec<LinkPointer>)
        ensures
            r@ == direct_slots(self.0@.subrange(0, 31)),
    {
        let mut r: Vec<LinkPointer> = Vec::new();
        let mut i: usize = 0;
        while i < 31
            invariant
                i <= 31,
                r@ == direct_slots(self.0@.subrange(0, i as int)),
            decreases 31 - i,
        {
            proof {
                assert(self.0@.subrange(0, i + 1).drop_last() =~= self.0@.subrange(0, i as int));
            }
            let p = self.0[i];
            if p.is_valid() && p.is_direct() { r.push(p) }
            i = i + 1;
        }
        r
    }

    /// The last slot: the next link block of the chain (or a last data pointer).
    pub fn last(&self) -> (r: LinkPointer)
        ensures r == self.0@[31],
    {
        self.0[31]
    }

    /// The pointers that one step of link resolution yields from this block: its data
    /// pointers, then the last slot if it is valid.
    pub fn resolve(&self) -> (r: Vec<LinkPointer>)
        ensures
            r@ == (if self.0@[31].start != 0 {
                direct_slots(self.0@.subrange(0, 31)).push(self.0@[31])
            } else {
                direct_slots(self.0@.subrange(0, 31))
            }),
    {
        let mut r = self.direct_pointers();
        let last = self.0[31];
        if last.is_valid() { r.push(last) }
        r
    }
}

} // verus!
