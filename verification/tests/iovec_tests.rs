use pagebuf::iovec::iov_advance;

#[test]
fn advance_skips_whole_slices() {
    let lens = vec![3usize, 5, 2];
    assert_eq!(iov_advance(&lens, 0), (0, 0));
    assert_eq!(iov_advance(&lens, 3), (1, 0));
    assert_eq!(iov_advance(&lens, 8), (2, 0));
    assert_eq!(iov_advance(&lens, 10), (3, 0));
}

#[test]
fn advance_steps_into_a_partially_written_slice() {
    let lens = vec![3usize, 5, 2];
    assert_eq!(iov_advance(&lens, 1), (0, 1));
    assert_eq!(iov_advance(&lens, 4), (1, 1));
    assert_eq!(iov_advance(&lens, 9), (2, 1));
}

#[test]
fn advance_passes_over_empty_slices() {
    let lens = vec![0usize, 3, 0, 0, 4];
    assert_eq!(iov_advance(&lens, 0), (1, 0));
    assert_eq!(iov_advance(&lens, 3), (4, 0));
    assert_eq!(iov_advance(&lens, 5), (4, 2));
    assert_eq!(iov_advance(&lens, 7), (5, 0));
}
