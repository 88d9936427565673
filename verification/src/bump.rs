//! Monotonic bump allocator: hands out monotonically advancing slices
//! of the arena and reclaims all space at once when the last
//! outstanding allocation is released.
//!
//! The offset and the outstanding count always change together under
//! one exclusive borrow, so the release-to-zero race that two
//! independently updated counters would allow cannot arise here; a
//! wrapper that shares an allocator between threads must keep calls
//! exclusive (for instance behind a mutual-exclusion lock).

use vstd::prelude::*;

verus! {

use crate::layout::{AllocError, Layout, pad_up};
use crate::region::{pairwise_disjoint, region_disjoint};

/// Arena capacity used when no other size is called for.
pub const DEFAULT_SIZE: usize = 128 * 1024;

/// The bump allocator's mutable state: the next free offset and the
/// number of outstanding allocations.
#[derive(Clone, Copy, Debug)]
pub struct BumpImpl {
    pub next: usize,
    pub allocations: usize,
}

impl BumpImpl {
    /// Fresh state: the whole arena free, nothing outstanding.
    pub fn new() -> (r: BumpImpl)
        ensures
            r.next == 0,
            r.allocations == 0,
    {
        BumpImpl { next: 0, allocations: 0 }
    }
}

/// A bump allocator over an arena of `capacity` bytes. Successful
/// allocations are arena-relative byte offsets.
pub struct BumpAlloc {
    pub capacity: usize,
    pub details: BumpImpl,
    /// Blocks handed out since the last reset, as (offset, padded
    /// size). A block stays reserved after its release until the
    /// outstanding count returns to zero and the arena resets.
    pub reserved: Ghost<Seq<(int, int)>>,
}

impl BumpAlloc {
    /// Internal consistency: the next free offset stays inside the
    /// arena, reserved blocks lie below it and never overlap, and a
    /// clear allocator has nothing reserved.
    pub open spec fn wf(self) -> bool {
        &&& self.details.next <= self.capacity
        &&& self.details.allocations == 0 ==> self.details.next == 0
            && self.reserved@.len() == 0
        &&& forall|i: int| #![trigger self.reserved@[i]] 0 <= i < self.reserved@.len()
            ==> 0 <= self.reserved@[i].0 && 0 <= self.reserved@[i].1
                && self.reserved@[i].0 + self.reserved@[i].1 <= self.details.next
        &&& pairwise_disjoint(self.reserved@)
    }

    /// A fresh allocator over an arena of `capacity` bytes.
    pub fn new(capacity: usize) -> (r: BumpAlloc)
        ensures
            r.wf(),
            r.capacity == capacity,
            r.details.next == 0,
            r.details.allocations == 0,
            r.reserved@ == Seq::<(int, int)>::empty(),
    {
        BumpAlloc { capacity, details: BumpImpl::new(), reserved: Ghost(Seq::empty()) }
    }

    /// Number of outstanding allocations.
    pub fn num_allocated(&self) -> (r: usize)
        ensures
            r == self.details.allocations,
    {
        self.details.allocations
    }

    /// Whether the whole arena is available again.
    pub fn is_clear(&self) -> (r: bool)
        ensures
            r == (self.details.next == 0),
    {
        self.details.next == 0
    }

    /// Reserves the layout's padded size from the remaining span of
    /// the arena.
    ///
    /// Succeeds exactly when the padded size fits between the next
    /// free offset and the capacity; the returned offset is the old
    /// next free offset, which lies at or above the end of every block
    /// reserved earlier, so no reserved byte is ever handed out twice
    /// before the arena resets. On failure nothing changes.
    pub fn allocate(&mut self, layout: Layout) -> (r: Result<usize, AllocError>)
        requires
            old(self).wf(),
            layout.wf(),
            old(self).details.allocations < usize::MAX,
        ensures
            final(self).wf(),
            final(self).capacity == old(self).capacity,
            ({
                let sz = pad_up(layout.size as int, layout.align as int);
                &&& (r is Ok <==> old(self).details.next + sz <= old(self).capacity)
                &&& (r matches Ok(p) ==> {
                    &&& p == old(self).details.next
                    &&& final(self).details.next == old(self).details.next + sz
                    &&& final(self).details.allocations == old(self).details.allocations + 1
                    &&& final(self).reserved@ == old(self).reserved@.push((p as int, sz))
                    &&& forall|j: int| #![trigger old(self).reserved@[j]]
                        0 <= j < old(self).reserved@.len()
                            ==> old(self).reserved@[j].0 + old(self).reserved@[j].1 <= p
                })
                &&& (r is Err ==> r == Err::<usize, AllocError>(AllocError::OutOfMemory)
                    && *final(self) == *old(self))
            }),
    {
        let size = layout.pad_to_align().size();
        if size > self.capacity - self.details.next {
            return Err(AllocError::OutOfMemory);
        }
        let start = self.details.next;
        self.details.next = start + size;
        self.details.allocations = self.details.allocations + 1;
        proof {
            self.reserved@ = self.reserved@.push((start as int, size as int));
        }
        Ok(start)
    }

    /// Releases one outstanding allocation.
    ///
    /// The pointer and layout are not inspected: the bump strategy
    /// only ever reclaims all memory at once. When the outstanding
    /// count returns to zero the next free offset resets to the start
    /// of the arena; otherwise no space is returned.
    pub fn deallocate(&mut self, _ptr: usize, _layout: Layout)
        requires
            old(self).wf(),
            old(self).details.allocations > 0,
        ensures
            final(self).wf(),
            final(self).capacity == old(self).capacity,
            final(self).details.allocations == old(self).details.allocations - 1,
            old(self).details.allocations == 1 ==> final(self).details.next == 0
                && final(self).reserved@.len() == 0,
            old(self).details.allocations > 1 ==> final(self).details.next
                == old(self).details.next && final(self).reserved@ == old(self).reserved@,
    {
        self.details.allocations = self.details.allocations - 1;
        if self.details.allocations == 0 {
            self.details.next = 0;
            proof {
                self.reserved@ = Seq::empty();
            }
        }
    }

    /// Distinctness: any two blocks reserved since the last reset
    /// occupy disjoint byte ranges, however the allocations and
    /// releases were interleaved.
    pub proof fn lemma_reservations_disjoint(self, i: int, j: int)
        requires
            self.wf(),
            0 <= i < self.reserved@.len(),
            0 <= j < self.reserved@.len(),
            i != j,
        ensures
            region_disjoint(self.reserved@[i], self.reserved@[j]),
    {
    }
}

} // verus!
