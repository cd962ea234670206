use powersort::alternatives::extend_run_left;
use powersort::powersort::extend_run_right;

#[test]
// Test on a weakly increasing sequence.
fn extend_run_right_1() {
    let sequence = [1, 1, 2, 3, 4, 4, 5, 6, 7, 8, 9, 10];
    let mut is_less = |a: &i32, b: &i32| a < b;
    let (length, is_increasing) = extend_run_right(&sequence, 0, &mut is_less);
    assert_eq!(length, 12);
    assert!(is_increasing);
}

#[test]
// Test on a strictly decreasing sequence.
fn extend_run_right_2() {
    let sequence = [10, 9, 8, 7, 6, 5, 4, 3, 2, 1];
    let mut is_less = |a: &i32, b: &i32| a < b;
    let (length, is_increasing) = extend_run_right(&sequence, 0, &mut is_less);
    assert_eq!(length, 10);
    assert!(!is_increasing);
}

#[test]
// Test on a mixed sequence.
fn extend_run_right_3() {
    let sequence = [1, 1, 2, 3, 4, 4, 6, 5, 4, 3, 2, 1];
    let mut is_less = |a: &i32, b: &i32| a < b;
    let (length, is_increasing) = extend_run_right(&sequence, 0, &mut is_less);
    assert_eq!(length, 7);
    assert!(is_increasing);

    let (length, is_increasing) = extend_run_right(&sequence, 7, &mut is_less);
    assert_eq!(length, 5);
    assert!(!is_increasing);
}

#[test]
// Edge case: If the start index is the last element, return 1.
fn extend_run_right_4() {
    let sequence = [1, 1, 2, 3, 4, 4, 5, 6, 7, 8, 9, 10];
    let mut is_less = |a: &i32, b: &i32| a < b;
    let (length, is_increasing) = extend_run_right(&sequence, sequence.len() - 1, &mut is_less);
    assert_eq!(length, 1);
    assert!(is_increasing);
}

#[test]
// Equal neighbours do not end a non-decreasing run, but do end a strictly
// decreasing one.
fn extend_run_right_equal_elements() {
    let is_less = |a: &i32, b: &i32| a < b;
    assert_eq!(extend_run_right(&[7, 7, 7, 7], 0, &is_less), (4, true));
    assert_eq!(extend_run_right(&[5, 4, 4, 3], 0, &is_less), (2, false));
    assert_eq!(extend_run_right(&[5, 4, 4, 3], 2, &is_less), (2, false));
}

#[test]
// Test on a weakly increasing sequence.
fn extend_run_left_1() {
    let sequence = [1, 1, 2, 3, 4, 4, 5, 6, 7, 8, 9, 10];
    let mut is_less = |a: &i32, b: &i32| a < b;
    let (length, is_increasing) = extend_run_left(&sequence, sequence.len() - 1, &mut is_less);
    assert_eq!(length, 12);
    assert!(is_increasing);
}

#[test]
// Test on a strictly decreasing sequence.
fn extend_run_left_2() {
    let sequence = [10, 9, 8, 7, 6, 5, 4, 3, 2, 1];
    let mut is_less = |a: &i32, b: &i32| a < b;
    let (length, is_increasing) = extend_run_left(&sequence, sequence.len() - 1, &mut is_less);
    assert_eq!(length, 10);
    assert!(!is_increasing);
}

#[test]
// Test on a mixed sequence.
fn extend_run_left_3() {
    let sequence = [1, 1, 2, 3, 4, 4, 6, 5, 4, 3, 2, 1];
    let mut is_less = |a: &i32, b: &i32| a < b;
    let (length, is_increasing) = extend_run_left(&sequence, sequence.len() - 1, &mut is_less);
    assert_eq!(length, 6);
    assert!(!is_increasing);

    let (length, is_increasing) = extend_run_left(&sequence, 5, &mut is_less);
    assert_eq!(length, 6);
    assert!(is_increasing);
}

#[test]
// Edge case: If the start index is the first element, return 1.
fn extend_run_left_4() {
    let sequence = [1, 1, 2, 3, 4, 4, 5, 6, 7, 8, 9, 10];
    let mut is_less = |a: &i32, b: &i32| a < b;
    let (length, is_increasing) = extend_run_left(&sequence, 0, &mut is_less);
    assert_eq!(length, 1);
    assert!(is_increasing);
}

#[test]
fn extend_run_left_5() {
    let sequence = vec![5, 7, 9, 1, 2, 4, 6];
    let mut is_less = |a: &i32, b: &i32| a < b;

    let (length, is_increasing) = extend_run_left(&sequence, sequence.len() - 1, &mut is_less);
    assert_eq!(length, 4);
    assert!(is_increasing);

    let (length, is_increasing) = extend_run_left(&sequence, 2, &mut is_less);
    assert_eq!(length, 3);
    assert!(is_increasing);
}
