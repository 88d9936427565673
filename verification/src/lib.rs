//! Fixed-capacity arena allocators.
//!
//! Three interchangeable allocation strategies over a bounded arena:
//! a monotonic bump allocator, a first-fit free-list allocator, and a
//! null allocator that always fails. Addresses are arena-relative byte
//! offsets, so every computed address is checked against the arena's
//! capacity rather than dereferenced blindly.

pub mod bump;
pub mod freelist;
pub mod layout;
pub mod null;
pub mod region;
