use fm_index::util::log2_usize;

#[test]
fn test_log2_usize() {
    assert_eq!(log2_usize(2usize), 1);
    assert_eq!(log2_usize(3usize), 1);
    assert_eq!(log2_usize(4usize), 2);
    assert_eq!(log2_usize(5usize), 2);
    assert_eq!(log2_usize(6usize), 2);
    assert_eq!(log2_usize(7usize), 2);
    assert_eq!(log2_usize(8usize), 3);
}

#[test]
fn test_log2_usize_edges() {
    assert_eq!(log2_usize(1usize), 0);
    assert_eq!(log2_usize(usize::MAX), (usize::BITS - 1) as usize);
}
