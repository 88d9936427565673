use alloc_fun::bump::{BumpAlloc, DEFAULT_SIZE};
use alloc_fun::layout::{AllocError, Layout};

#[test]
fn allocates() {
    let mut bump = BumpAlloc::new(DEFAULT_SIZE);
    let layout = Layout::from_size_align(10, 4).unwrap();
    let bytes = bump.allocate(layout);
    assert!(bytes.is_ok());
}

#[test]
fn provides_distinct_allocations() {
    let mut bump = BumpAlloc::new(DEFAULT_SIZE);
    let layout = Layout::from_size_align(10, 4).unwrap();
    let bytes_1 = bump.allocate(layout).unwrap();
    let bytes_2 = bump.allocate(layout).unwrap();
    assert_ne!(bytes_1, bytes_2);
}

#[test]
fn holds_allocations() {
    let mut bump = BumpAlloc::new(DEFAULT_SIZE);
    let layout = Layout::from_size_align(10, 4).unwrap();
    // used to ensure the allocator doesn't clear allocated memory
    let _bytes_0 = bump.allocate(layout).unwrap();
    let bytes_1 = bump.allocate(layout).unwrap();
    bump.deallocate(bytes_1, layout);
    let bytes_2 = bump.allocate(layout).unwrap();
    assert_ne!(bytes_1, bytes_2);
}

#[test]
fn frees_allocations() {
    let mut bump = BumpAlloc::new(DEFAULT_SIZE);
    let layout = Layout::from_size_align(10, 4).unwrap();
    let bytes_1 = bump.allocate(layout).unwrap();
    bump.deallocate(bytes_1, layout);
    let bytes_2 = bump.allocate(layout).unwrap();
    assert_eq!(bytes_1, bytes_2);
}

#[test]
fn may_fail_to_allocate() {
    let mut bump = BumpAlloc::new(0);
    let layout = Layout::from_size_align(10, 4).unwrap();
    let bytes = bump.allocate(layout);
    assert!(bytes.is_err());
}

#[test]
fn begins_cleared() {
    let bump = BumpAlloc::new(DEFAULT_SIZE);
    assert!(bump.is_clear());
}

#[test]
fn begins_with_no_allocations() {
    let bump = BumpAlloc::new(DEFAULT_SIZE);
    assert_eq!(bump.num_allocated(), 0);
}

#[test]
fn hands_out_non_overlapping_chunks() {
    let mut bump = BumpAlloc::new(DEFAULT_SIZE);
    let layout = Layout::from_size_align(8, 4).unwrap();
    let bytes = bump.allocate(layout).unwrap();
    let more_bytes = bump.allocate(layout).unwrap();
    assert!(bytes + 8 <= more_bytes || more_bytes + 8 <= bytes);
}

#[test]
fn bump_failure_is_out_of_memory() {
    let mut bump = BumpAlloc::new(0);
    let layout = Layout::from_size_align(10, 4).unwrap();
    assert_eq!(bump.allocate(layout), Err(AllocError::OutOfMemory));
}

#[test]
fn bump_exhausts_after_total_capacity() {
    let mut bump = BumpAlloc::new(32);
    let layout = Layout::from_size_align(16, 8).unwrap();
    assert!(bump.allocate(layout).is_ok());
    assert!(bump.allocate(layout).is_ok());
    assert_eq!(bump.allocate(layout), Err(AllocError::OutOfMemory));
}

#[test]
fn bump_reuses_space_only_after_last_release() {
    let mut bump = BumpAlloc::new(DEFAULT_SIZE);
    let layout = Layout::from_size_align(10, 4).unwrap();
    let a = bump.allocate(layout).unwrap();
    let b = bump.allocate(layout).unwrap();
    // with another allocation still outstanding, releasing b frees
    // nothing back to the caller
    bump.deallocate(b, layout);
    let c = bump.allocate(layout).unwrap();
    assert_ne!(c, b);
    assert!(c > b);
    // once the count returns to zero the whole arena is reused
    bump.deallocate(a, layout);
    bump.deallocate(c, layout);
    assert!(bump.is_clear());
    let d = bump.allocate(layout).unwrap();
    assert_eq!(d, a);
}

#[test]
fn bump_padded_size_consumes_arena() {
    let mut bump = BumpAlloc::new(DEFAULT_SIZE);
    let layout = Layout::from_size_align(10, 4).unwrap();
    let first = bump.allocate(layout).unwrap();
    let second = bump.allocate(layout).unwrap();
    // 10 bytes at alignment 4 pad to 12
    assert_eq!(first, 0);
    assert_eq!(second, 12);
}

#[test]
fn bump_zero_size_allocation_is_counted() {
    let mut bump = BumpAlloc::new(DEFAULT_SIZE);
    let layout = Layout::from_size_align(0, 1).unwrap();
    let bytes = bump.allocate(layout).unwrap();
    assert_eq!(bytes, 0);
    assert_eq!(bump.num_allocated(), 1);
}
