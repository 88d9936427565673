//! Null allocator: reports failure for every request. A sentinel and
//! test double for exercising a caller's out-of-memory handling, not a
//! production strategy.

use vstd::prelude::*;

verus! {

use crate::layout::{AllocError, Layout};

/// An allocator that owns no arena at all.
pub struct NullAlloc {}

impl NullAlloc {
    /// The null allocator.
    pub fn new() -> NullAlloc {
        NullAlloc {}
    }

    /// Always fails: there is no memory to hand out.
    pub fn allocate(&self, _layout: Layout) -> (r: Result<usize, AllocError>)
        ensures
            r == Err::<usize, AllocError>(AllocError::OutOfMemory),
    {
        Err(AllocError::OutOfMemory)
    }

    /// Accepts any release as a no-op: nothing was ever handed out.
    pub fn deallocate(&self, _ptr: usize, _layout: Layout) {
    }
}

} // verus!
