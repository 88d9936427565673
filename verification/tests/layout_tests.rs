use alloc_fun::layout::Layout;

#[test]
fn pads_size_to_alignment_multiple() {
    let layout = Layout::from_size_align(10, 4).unwrap();
    assert_eq!(layout.size(), 10);
    assert_eq!(layout.align(), 4);
    assert_eq!(layout.pad_to_align().size(), 12);
}

#[test]
fn aligned_size_is_unchanged_by_padding() {
    let layout = Layout::from_size_align(16, 8).unwrap();
    assert_eq!(layout.pad_to_align().size(), 16);
}

#[test]
fn zero_size_pads_to_zero() {
    let layout = Layout::from_size_align(0, 64).unwrap();
    assert_eq!(layout.pad_to_align().size(), 0);
}

#[test]
fn rejects_non_power_of_two_alignment() {
    assert!(Layout::from_size_align(10, 3).is_none());
    assert!(Layout::from_size_align(10, 0).is_none());
    assert!(Layout::from_size_align(10, 12).is_none());
}

#[test]
fn rejects_size_that_overflows_when_padded() {
    assert!(Layout::from_size_align(usize::MAX - 2, 8).is_none());
    assert!(Layout::from_size_align(usize::MAX, 1).is_some());
}
