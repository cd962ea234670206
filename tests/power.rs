use powersort::alternatives::node_power_no_div;
use powersort::powersort::{capacity, node_power};

// Test with manually computed values.
#[test]
fn node_power_test_1() {
    assert_eq!(node_power(11, 6, 1, 20), 2);
}

#[test]
fn node_power_test_2() {
    assert_eq!(node_power(44, 12, 3, 60), 3);
}

#[test]
fn node_power_test_3() {
    assert_eq!(node_power(0, 11, 11, 21), 1);
}

#[test]
fn node_power_no_div_known_values() {
    assert_eq!(node_power_no_div(11, 6, 1, 20), 2);
    assert_eq!(node_power_no_div(44, 12, 3, 60), 3);
    assert_eq!(node_power_no_div(0, 11, 11, 21), 1);
}

#[test]
// Both ways of computing the power agree on every pair of adjacent runs of
// every sequence up to a modest length.
fn node_power_strategies_agree() {
    for n in 2usize..=70 {
        for s1 in 0..n {
            for n1 in 1..n - s1 {
                for n2 in 1..=n - s1 - n1 {
                    assert_eq!(
                        node_power(s1, n1, n2, n),
                        node_power_no_div(s1, n1, n2, n) as usize,
                        "s1={} n1={} n2={} n={}",
                        s1,
                        n1,
                        n2,
                        n
                    );
                }
            }
        }
    }
}

#[test]
// The power is the first binary digit at which the scaled midpoints
// (2 * s1 + n1) / 2n and (2 * s1 + 2 * n1 + n2) / 2n differ.
fn node_power_is_first_differing_digit() {
    for n in 2usize..=40 {
        for s1 in 0..n {
            for n1 in 1..n - s1 {
                for n2 in 1..=n - s1 - n1 {
                    let a = (2 * s1 + n1) as u128;
                    let b = (2 * s1 + 2 * n1 + n2) as u128;
                    let n128 = n as u128;
                    let mut p = 1u32;
                    while (a << (p - 1)) / n128 == (b << (p - 1)) / n128 {
                        p += 1;
                    }
                    assert_eq!(node_power(s1, n1, n2, n), p as usize);
                }
            }
        }
    }
}

#[test]
// Two runs that halve the sequence meet at the root.
fn node_power_halves_meet_at_root() {
    assert_eq!(node_power(0, 50, 50, 100), 1);
    assert_eq!(node_power_no_div(0, 50, 50, 100), 1);
}

#[test]
fn capacity_values() {
    assert_eq!(capacity(0), 1);
    assert_eq!(capacity(1), 1);
    assert_eq!(capacity(2), 2);
    assert_eq!(capacity(3), 2);
    assert_eq!(capacity(4), 3);
    assert_eq!(capacity(1000), 10);
    assert_eq!(capacity(1024), 11);
    assert_eq!(capacity(usize::MAX), 64);
}
