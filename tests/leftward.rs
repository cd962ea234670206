use powersort::alternatives::insert_sort_left;
use powersort::powersort_alternatives::power_sort_left;

/// A small deterministic generator of pseudo-random numbers.
fn next(state: &mut u64) -> u64 {
    *state = state.wrapping_mul(6364136223846793005).wrapping_add(1442695040888963407);
    *state >> 33
}

#[test]
fn alternatives_insert_sort_test_1() {
    let mut is_less = |a: &i32, b: &i32| a < b;
    let mut v = vec![5, 4, 2, 3, 6, 7];

    insert_sort_left(&mut v[1..], &mut is_less);
    insert_sort_left(&mut v[0..], &mut is_less);

    assert_eq!(v, vec![2, 3, 4, 5, 6, 7]);
}

#[test]
fn alternatives_insert_sort_test_2() {
    let mut is_less = |a: &i32, b: &i32| a < b;
    let mut v = vec![3, 2];

    insert_sort_left(&mut v, &mut is_less);

    assert_eq!(v, vec![2, 3]);
}

#[test]
// The inserted element goes before the elements equal to it.
fn insert_sort_left_before_equal_keys() {
    let is_less = |a: &(i32, char), b: &(i32, char)| a.0 < b.0;
    let mut v = vec![(2, 'x'), (1, 'a'), (2, 'b'), (2, 'c'), (3, 'd')];
    insert_sort_left(&mut v, &is_less);
    assert_eq!(v, vec![(1, 'a'), (2, 'x'), (2, 'b'), (2, 'c'), (3, 'd')]);
}

#[test]
fn powersort_alternatives_power_sort_left_test_1() {
    let mut v = vec![5, 7, 9, 1, 2, 4, 8, 6];
    let is_less = |a: &i32, b: &i32| a < b;
    power_sort_left(&mut v, &is_less);
    assert_eq!(v, vec![1, 2, 4, 5, 6, 7, 8, 9]);
}

#[test]
// Two runs, sorted by the right-to-left PowerSort.
fn sort_final_power_sort_test_1() {
    let mut v = vec![2, 3, 6, 7, 1, 4, 5];
    power_sort_left(&mut v, |a, b| a < b);
    assert_eq!(v, vec![1, 2, 3, 4, 5, 6, 7]);
}

#[test]
// Three runs, sorted by the right-to-left PowerSort.
fn sort_final_power_sort_test_2() {
    let mut v = vec![5, 6, 7, 10, 9, 8, 1, 2, 3, 4];
    power_sort_left(&mut v, |a, b| a < b);
    assert_eq!(v, vec![1, 2, 3, 4, 5, 6, 7, 8, 9, 10]);
}

#[test]
// Long inputs with many runs and repeated keys, against a stable reference.
fn power_sort_left_matches_stable_reference() {
    for seed in 0..20u64 {
        let mut state = seed;
        let len = 100 + (next(&mut state) % 400) as usize;
        let mut v: Vec<(i32, usize)> = Vec::new();
        let mut i = 0;
        while i < len {
            let run = 1 + (next(&mut state) % 30) as usize;
            let mut part: Vec<i32> = (0..run).map(|_| (next(&mut state) % 23) as i32).collect();
            part.sort();
            if next(&mut state) % 2 == 0 {
                part.reverse();
            }
            for k in part {
                if i < len {
                    v.push((k, i));
                    i += 1;
                }
            }
        }
        let mut expected = v.clone();
        expected.sort_by_key(|p| p.0);
        power_sort_left(&mut v, |a: &(i32, usize), b: &(i32, usize)| a.0 < b.0);
        assert_eq!(v, expected);
    }
}
