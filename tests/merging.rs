use powersort::powersort::{insert_sort, merge, merge_buffer_reuse};

#[test]
fn merge_test_1() {
    let mut v = vec![2, 3, 6, 7, 1, 4, 5];
    merge(&mut v, 3, &|a: &i32, b: &i32| a < b);
    assert_eq!(v, vec![1, 2, 3, 4, 5, 6, 7]);
}

#[test]
fn merge_test_2() {
    let mut v = vec![5, 6, 7, 8, 9, 0, 1, 2, 3, 4];
    merge(&mut v, 4, &|a: &i32, b: &i32| a < b);
    assert_eq!(v, vec![0, 1, 2, 3, 4, 5, 6, 7, 8, 9]);
}

#[test]
fn merge_test_3() {
    let mut v = vec![1, 2, 3, 4, 5, 6];
    merge(&mut v, 2, &|a: &i32, b: &i32| a < b);
    assert_eq!(v, vec![1, 2, 3, 4, 5, 6]);
}

#[test]
// On equal keys the element of the left run comes first.
fn merge_is_stable() {
    let mut v = vec![(1, 'a'), (2, 'b'), (3, 'c'), (1, 'x'), (2, 'y'), (4, 'z')];
    merge(&mut v, 2, &|a: &(i32, char), b: &(i32, char)| a.0 < b.0);
    assert_eq!(v, vec![(1, 'a'), (1, 'x'), (2, 'b'), (2, 'y'), (3, 'c'), (4, 'z')]);
}

#[test]
// A short run against a long one, on either side.
fn merge_unequal_lengths() {
    let mut v = vec![50, 1, 2, 3, 4, 5, 6, 7, 8, 9];
    merge(&mut v, 0, &|a: &i32, b: &i32| a < b);
    assert_eq!(v, vec![1, 2, 3, 4, 5, 6, 7, 8, 9, 50]);

    let mut w = vec![1, 3, 5, 7, 9, 11, 13, 15, 17, 6];
    merge(&mut w, 8, &|a: &i32, b: &i32| a < b);
    assert_eq!(w, vec![1, 3, 5, 6, 7, 9, 11, 13, 15, 17]);
}

#[test]
// An empty right run leaves the left run as it was.
fn merge_empty_right_run() {
    let mut v = vec![3, 4, 8];
    merge(&mut v, 2, &|a: &i32, b: &i32| a < b);
    assert_eq!(v, vec![3, 4, 8]);
}

#[test]
fn powersort_insert_sort_test_1() {
    let mut is_less = |a: &i32, b: &i32| a < b;
    let mut v = vec![2, 3, 6, 7, 5, 4];

    insert_sort(&mut v[..5], &mut is_less);
    insert_sort(&mut v[..6], &mut is_less);

    assert_eq!(v, vec![2, 3, 4, 5, 6, 7]);
}

#[test]
fn powersort_insert_sort_test_2() {
    let mut is_less = |a: &i32, b: &i32| a < b;
    let mut v = vec![3, 2];

    insert_sort(&mut v, &mut is_less);

    assert_eq!(v, vec![2, 3]);
}

#[test]
// The inserted element goes after the elements equal to it.
fn insert_sort_after_equal_keys() {
    let is_less = |a: &(i32, char), b: &(i32, char)| a.0 < b.0;
    let mut v = vec![(1, 'a'), (2, 'b'), (2, 'c'), (3, 'd'), (2, 'e')];
    insert_sort(&mut v, &is_less);
    assert_eq!(v, vec![(1, 'a'), (2, 'b'), (2, 'c'), (2, 'e'), (3, 'd')]);
}

#[test]
// One buffer serves several merges; afterwards it holds the left run.
fn merge_buffer_reuse_across_merges() {
    let is_less = |a: &i32, b: &i32| a < b;
    let mut buf: Vec<i32> = vec![99; 3];
    let mut v = vec![2, 3, 6, 7, 1, 4, 5];
    merge_buffer_reuse(&mut v, 3, &mut buf, &is_less);
    assert_eq!(v, vec![1, 2, 3, 4, 5, 6, 7]);
    assert_eq!(buf, vec![2, 3, 6, 7]);

    let mut w = vec![8, 0, 1, 2, 9];
    merge_buffer_reuse(&mut w, 0, &mut buf, &is_less);
    assert_eq!(w, vec![0, 1, 2, 8, 9]);
    assert_eq!(buf, vec![8]);
}
