use powersort::sequences::timsort_drag_run_lengths;

#[test]
fn test_timsort_drag_run_lengths() {
    let lengths = timsort_drag_run_lengths(54);
    let expected = vec![3, 2, 1, 2, 1, 2, 2, 3, 2, 1, 2, 1, 2, 1, 2, 3, 2, 1, 2, 1, 2, 2, 3, 2, 1, 2, 1, 2, 1, 1, 1];
    assert_eq!(lengths, expected);
}

#[test]
// The lengths add up to the total they were asked for.
fn timsort_drag_run_lengths_add_up() {
    for n in 0..500usize {
        let lengths = timsort_drag_run_lengths(n);
        assert_eq!(lengths.iter().sum::<usize>(), n);
        assert!(!lengths.is_empty());
    }
    assert_eq!(timsort_drag_run_lengths(3), vec![3]);
    assert_eq!(timsort_drag_run_lengths(4), vec![2, 1, 1]);
}
