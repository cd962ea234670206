use powersort::powersort::{insertion_sort, power_sort, power_sort_with, sort};
use powersort::powersort_alternatives::power_sort_no_insertion;

/// A small deterministic generator of pseudo-random numbers.
fn next(state: &mut u64) -> u64 {
    *state = state.wrapping_mul(6364136223846793005).wrapping_add(1442695040888963407);
    *state >> 33
}

/// `length` numbers in `[0, length)`, cut into `m` runs that alternate
/// between ascending and descending.
fn runs_sequence(length: usize, m: usize, seed: u64) -> Vec<i32> {
    let mut state = seed;
    let mut v: Vec<i32> = (0..length).map(|_| (next(&mut state) % length as u64) as i32).collect();
    let mut start = 0;
    let mut flip = false;
    for i in 0..m {
        let end = if i + 1 == m {
            length
        } else {
            (start + (next(&mut state) as usize % (2 * length / m + 1))).min(length)
        };
        v[start..end].sort();
        if flip {
            v[start..end].reverse();
        }
        flip = !flip;
        start = end;
    }
    v
}

#[test]
// Test for two runs.
fn powersort_power_sort_test_1() {
    let mut v = vec![2, 3, 6, 7, 1, 4, 5];
    power_sort(&mut v, |a, b| a < b);
    assert_eq!(v, vec![1, 2, 3, 4, 5, 6, 7]);
}

#[test]
// Test for three runs.
fn powersort_power_sort_test_2() {
    let mut v = vec![5, 6, 7, 10, 9, 8, 1, 2, 3, 4];
    power_sort(&mut v, |a, b| a < b);
    assert_eq!(v, vec![1, 2, 3, 4, 5, 6, 7, 8, 9, 10]);
}

#[test]
// 500 elements in about 50 runs, against the standard library's sort.
fn power_sort_many_runs_matches_reference() {
    for seed in 0..20u64 {
        let mut v = runs_sequence(500, 50, seed);
        let mut sorted = v.clone();
        sorted.sort();
        power_sort(&mut v, |a, b| a < b);
        assert_eq!(v, sorted);
    }
}

#[test]
fn power_sort_all_equal() {
    let mut v = vec![7; 50];
    power_sort(&mut v, |a, b| a < b);
    assert_eq!(v, vec![7; 50]);
}

#[test]
fn power_sort_empty_and_single() {
    let mut e: Vec<i32> = vec![];
    power_sort(&mut e, |a, b| a < b);
    assert_eq!(e, Vec::<i32>::new());
    let mut one = vec![42];
    power_sort(&mut one, |a, b| a < b);
    assert_eq!(one, vec![42]);
}

#[test]
fn power_sort_sorted_and_reversed() {
    let mut up: Vec<i32> = (0..300).collect();
    power_sort(&mut up, |a, b| a < b);
    assert_eq!(up, (0..300).collect::<Vec<i32>>());
    let mut down: Vec<i32> = (0..300).rev().collect();
    power_sort(&mut down, |a, b| a < b);
    assert_eq!(down, (0..300).collect::<Vec<i32>>());
}

#[test]
// Sorting (key, input position) pairs by key alone keeps the indices of
// each key in increasing order.
fn power_sort_is_stable() {
    for seed in 0..10u64 {
        let keys = runs_sequence(400, 30, seed);
        let mut v: Vec<(i32, usize)> = keys.iter().map(|k| k % 17).zip(0..).collect();
        let mut expected = v.clone();
        expected.sort_by_key(|p| p.0);
        power_sort(&mut v, |a: &(i32, usize), b: &(i32, usize)| a.0 < b.0);
        assert_eq!(v, expected);
        for w in v.windows(2) {
            assert!(w[0].0 < w[1].0 || (w[0].0 == w[1].0 && w[0].1 < w[1].1));
        }
    }
}

#[test]
// The output holds the same elements as the input.
fn power_sort_is_a_permutation() {
    let input = runs_sequence(1000, 40, 7);
    let mut v = input.clone();
    power_sort(&mut v, |a, b| a < b);
    let mut a = input.clone();
    a.sort_unstable();
    let mut b = v.clone();
    b.sort_unstable();
    assert_eq!(a, b);
    assert_eq!(v.len(), input.len());
}

#[test]
// Sorting a sorted sequence again changes nothing.
fn power_sort_twice_is_same() {
    let mut v: Vec<(i32, usize)> = runs_sequence(300, 20, 3).iter().map(|k| k % 5).zip(0..).collect();
    power_sort(&mut v, |a: &(i32, usize), b: &(i32, usize)| a.0 < b.0);
    let once = v.clone();
    power_sort(&mut v, |a: &(i32, usize), b: &(i32, usize)| a.0 < b.0);
    assert_eq!(v, once);
}

#[test]
// A reversed comparator sorts in decreasing order.
fn power_sort_descending() {
    let mut v = runs_sequence(200, 10, 11);
    let mut expected = v.clone();
    expected.sort_by(|a, b| b.cmp(a));
    power_sort(&mut v, |a, b| a > b);
    assert_eq!(v, expected);
}

#[test]
fn sort_natural_order() {
    let mut v = runs_sequence(1000, 60, 5);
    let mut expected = v.clone();
    expected.sort();
    sort(&mut v);
    assert_eq!(v, expected);
}

#[test]
fn insertion_sort_small() {
    let mut v = vec![(3, 'a'), (1, 'b'), (3, 'c'), (2, 'd'), (1, 'e')];
    insertion_sort(&mut v, |a: &(i32, char), b: &(i32, char)| a.0 < b.0);
    assert_eq!(v, vec![(1, 'b'), (1, 'e'), (2, 'd'), (3, 'a'), (3, 'c')]);
}

#[test]
fn power_sort_no_insertion_matches_reference() {
    for seed in 0..10u64 {
        let mut v = runs_sequence(500, 50, seed);
        let mut sorted = v.clone();
        sorted.sort();
        power_sort_no_insertion(&mut v, |a, b| a < b);
        assert_eq!(v, sorted);
    }
    let mut e: Vec<i32> = vec![];
    power_sort_no_insertion(&mut e, |a, b| a < b);
    assert!(e.is_empty());
}

#[test]
// Other run and input thresholds give the same result.
fn power_sort_with_other_thresholds() {
    let input = runs_sequence(300, 25, 9);
    let mut expected = input.clone();
    expected.sort();
    for (min_run, max_insertion) in [(0usize, 0usize), (1, 2), (32, 32), (5, 400)] {
        let mut v = input.clone();
        power_sort_with(&mut v, &|a: &i32, b: &i32| a < b, min_run, max_insertion);
        assert_eq!(v, expected);
    }
}
