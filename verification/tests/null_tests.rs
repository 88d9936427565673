use alloc_fun::layout::{AllocError, Layout};
use alloc_fun::null::NullAlloc;

#[test]
fn null_does_not_allocate() {
    let null = NullAlloc::new();
    let layout = Layout::from_size_align(10, 4).unwrap();
    let bytes = null.allocate(layout);
    assert!(bytes.is_err());
}

#[test]
fn null_failure_is_out_of_memory() {
    let null = NullAlloc::new();
    let layout = Layout::from_size_align(10, 4).unwrap();
    assert_eq!(null.allocate(layout), Err(AllocError::OutOfMemory));
}

#[test]
fn null_release_is_a_noop() {
    let null = NullAlloc::new();
    let layout = Layout::from_size_align(10, 4).unwrap();
    null.deallocate(0, layout);
    assert_eq!(null.allocate(layout), Err(AllocError::OutOfMemory));
}
