use alloc_fun::freelist::{FreeListAlloc, FreeListImpl, DEFAULT_SIZE, NODE_ALIGN, NODE_SIZE};
use alloc_fun::layout::{AllocError, Layout};

#[test]
fn begins_with_no_head() {
    let alloc = FreeListImpl::new(DEFAULT_SIZE);
    assert_eq!(alloc.free_list_length(), 0);
    assert!(!alloc.initialized);
}

#[test]
fn can_add_free_region() {
    let mut alloc = FreeListImpl::new(DEFAULT_SIZE);
    alloc.add_free_region(0, DEFAULT_SIZE);
    assert_eq!(alloc.free_list_length(), 1);
    assert_eq!(alloc.free_space(), DEFAULT_SIZE);
    assert!(alloc.initialized);
}

#[test]
fn allocates_correct_size() {
    let mut alloc = FreeListAlloc::new(DEFAULT_SIZE);
    let layout = Layout::from_size_align(10, 4).unwrap();
    let true_size = FreeListImpl::adjust_layout(layout).pad_to_align().size();
    let _bytes = alloc.allocate(layout);
    assert_eq!(alloc.free_space(), DEFAULT_SIZE - true_size);
}

#[test]
fn can_allocate_more_than_list_node_size() {
    let mut alloc = FreeListAlloc::new(DEFAULT_SIZE);
    let layout = Layout::from_size_align(256, 4).unwrap();
    let true_size = FreeListImpl::adjust_layout(layout).pad_to_align().size();
    let _bytes = alloc.allocate(layout);
    assert_eq!(alloc.free_space(), DEFAULT_SIZE - true_size);
}

#[test]
fn can_allocate() {
    let mut alloc = FreeListAlloc::new(DEFAULT_SIZE);
    let layout = Layout::from_size_align(10, 4).unwrap();
    let bytes = alloc.allocate(layout);
    assert!(bytes.is_ok());
    let more_bytes = alloc.allocate(layout);
    assert!(more_bytes.is_ok());
    assert_ne!(bytes.unwrap(), more_bytes.unwrap());
}

#[test]
fn can_deallocate() {
    let mut alloc = FreeListAlloc::new(DEFAULT_SIZE);
    let layout = Layout::from_size_align(10, 4).unwrap();
    let bytes = alloc.allocate(layout).unwrap();
    alloc.deallocate(bytes, layout);
    assert_eq!(alloc.free_space(), DEFAULT_SIZE);
}

#[test]
fn repeated_alloc_and_dealloc_keeps_free_list_stable() {
    let mut alloc = FreeListAlloc::new(DEFAULT_SIZE);
    let layout = Layout::from_size_align(10, 4).unwrap();
    for _ in 0..100 {
        let bytes = alloc.allocate(layout).unwrap();
        alloc.deallocate(bytes, layout);
        assert_eq!(alloc.free_list_length(), 2);
    }
}

#[test]
fn can_skip_values_in_free_list() {
    let mut alloc = FreeListAlloc::new(DEFAULT_SIZE);
    let layout1 = Layout::from_size_align(10, 4).unwrap();
    let layout2 = Layout::from_size_align(256, 4).unwrap();
    let bytes = alloc.allocate(layout1).unwrap();
    alloc.deallocate(bytes, layout1);
    let _bytes = alloc.allocate(layout2);
    assert_eq!(
        alloc.free_space(),
        DEFAULT_SIZE - layout2.pad_to_align().size()
    );
}

#[test]
fn freelist_reuses_released_address() {
    let mut alloc = FreeListAlloc::new(DEFAULT_SIZE);
    let layout = Layout::from_size_align(10, 4).unwrap();
    let a = alloc.allocate(layout).unwrap();
    alloc.deallocate(a, layout);
    let a_again = alloc.allocate(layout).unwrap();
    assert_eq!(a, a_again);
}

#[test]
fn freelist_allocations_are_distinct_and_aligned() {
    let mut alloc = FreeListAlloc::new(DEFAULT_SIZE);
    let layout = Layout::from_size_align(10, 4).unwrap();
    let size = FreeListImpl::adjust_layout(layout).pad_to_align().size();
    let a = alloc.allocate(layout).unwrap();
    let b = alloc.allocate(layout).unwrap();
    assert!(a + size <= b || b + size <= a);
    assert_eq!(a % NODE_ALIGN, 0);
    assert_eq!(b % NODE_ALIGN, 0);
}

#[test]
fn fragmentation_blocks_large_allocation() {
    let mut alloc = FreeListAlloc::new(64);
    let small = Layout::from_size_align(16, 8).unwrap();
    let medium = Layout::from_size_align(48, 8).unwrap();
    let a = alloc.allocate(small).unwrap();
    let b = alloc.allocate(medium).unwrap();
    alloc.deallocate(a, small);
    alloc.deallocate(b, medium);
    // all 64 bytes are free again, but split across two regions that
    // are never merged, so a whole-arena request cannot be served
    assert_eq!(alloc.free_space(), 64);
    let large = Layout::from_size_align(64, 8).unwrap();
    assert_eq!(alloc.allocate(large), Err(AllocError::OutOfMemory));
}

#[test]
fn freelist_failure_is_out_of_memory() {
    let mut alloc = FreeListAlloc::new(DEFAULT_SIZE);
    let layout = Layout::from_size_align(DEFAULT_SIZE + 1, 8).unwrap();
    assert_eq!(alloc.allocate(layout), Err(AllocError::OutOfMemory));
}

#[test]
fn whole_arena_can_be_allocated_at_once() {
    let mut alloc = FreeListAlloc::new(DEFAULT_SIZE);
    let layout = Layout::from_size_align(DEFAULT_SIZE, 8).unwrap();
    let bytes = alloc.allocate(layout).unwrap();
    assert_eq!(bytes, 0);
    assert_eq!(alloc.free_list_length(), 0);
    assert_eq!(alloc.free_space(), 0);
}

#[test]
fn adjusts_small_layouts_to_node_size() {
    let layout = Layout::from_size_align(10, 4).unwrap();
    let adjusted = FreeListImpl::adjust_layout(layout);
    assert_eq!(adjusted.size(), NODE_SIZE);
    assert_eq!(adjusted.align(), NODE_ALIGN);
    assert_eq!(adjusted.pad_to_align().size(), 16);
}

#[test]
fn arena_smaller_than_a_node_serves_nothing() {
    let mut alloc = FreeListAlloc::new(NODE_SIZE - 1);
    let layout = Layout::from_size_align(1, 1).unwrap();
    assert_eq!(alloc.allocate(layout), Err(AllocError::OutOfMemory));
}

#[test]
fn suitable_region_must_fit_request_and_leftover() {
    let node = alloc_fun::freelist::ListNode::new(0, 32);
    assert!(node.suitable_for(32));
    assert!(node.suitable_for(16));
    // a 24-byte carve would leave 8 bytes: too small to host a record
    assert!(!node.suitable_for(24));
    assert!(!node.suitable_for(33));
    assert_eq!(node.start_addr(), 0);
}
