//! Allocation of node identities.
//!
//! Identities are plain 64-bit numbers handed out by a monotonic counter.
//! No identity is ever reused; running out of them is treated as
//! impossible and excluded by precondition.

use vstd::prelude::*;

verus! {

/// A node identity.  Opaque outside the library except as a map key.
pub type ID = u64;

/// A monotonic counter of identities.  Every id below `next()` may have
/// been handed out already; every id at or above it is still fresh.
pub struct IdAllocator {
    next_id: ID,
}

impl IdAllocator {
    /// The lowest identity this allocator has not handed out yet.
    pub closed spec fn next(&self) -> ID {
        self.next_id
    }

    /// A fresh allocator that has handed out nothing.
    pub fn new() -> (r: Self)
        ensures
            r.next() == 0,
    {
        IdAllocator { next_id: 0 }
    }

    /// A second allocator at the same position.
    pub fn duplicate(&self) -> (r: Self)
        ensures
            r.next() == self.next(),
    {
        IdAllocator { next_id: self.next_id }
    }

    /// Hand out the next unused identity.
    pub fn new_id(&mut self) -> (r: ID)
        requires
            old(self).next() < ID::MAX,
        ensures
            r == old(self).next(),
            final(self).next() == old(self).next() + 1,
    {
        let r = self.next_id;
        self.next_id = self.next_id + 1;
        r
    }
}

} // verus!
