//! Variants of the run extender and of the power metric: runs found from
//! right to left, and the power computed by shifting and subtracting.
use vstd::prelude::*;
use vstd::arithmetic::power2::{pow2, lemma_pow2_unfold, lemma_pow2_strictly_increases, lemma2_to64};
use crate::order::{callable, agrees, lt_of, deterministic, ascending, strictly_descending};
use crate::runs::{insert_first, inserted_left, lemma_inserted_left};
use crate::powersort::{split_depth, node_power_spec, power_args};

verus! {

/// The run that ends at `end`, read from right to left: `(length, true)` for
/// the longest non-decreasing stretch `[end + 1 - length, end]`, `(length,
/// false)` for the longest strictly decreasing one, as chosen by the last pair.
pub open spec fn run_left_spec<T>(less: spec_fn(T, T) -> bool, s: Seq<T>, end: int, length: int, increasing: bool) -> bool {
    let first = end + 1 - length;
    &&& 1 <= length <= end + 1
    &&& end < s.len()
    &&& if increasing {
        &&& ascending(less, s.subrange(first, end + 1))
        &&& (first > 0 ==> less(s[first], s[first - 1]))
        &&& (length >= 2 || end == 0)
    } else {
        &&& length >= 2
        &&& strictly_descending(less, s.subrange(first, end + 1))
        &&& (first > 0 ==> !less(s[first], s[first - 1]))
    }
}

/// Length and direction of the run that ends at `start`, growing leftwards.
pub fn extend_run_left<T, F: Fn(&T, &T) -> bool>(sequence: &[T], start: usize, is_less: &F) -> (r: (usize, bool))
    requires
        start < sequence@.len(),
        callable(*is_less),
        deterministic(*is_less),
    ensures
        run_left_spec(lt_of(*is_less), sequence@, start as int, r.0 as int, r.1),
{
    find_run_left(sequence, start, is_less, Ghost(lt_of(*is_less)))
}

/// Length and direction of the run that ends at `start`, growing leftwards,
/// under the relation `less` that `is_less` computes.
pub(crate) fn find_run_left<T, F: Fn(&T, &T) -> bool>(
    sequence: &[T],
    start: usize,
    is_less: &F,
    Ghost(less): Ghost<spec_fn(T, T) -> bool>,
) -> (r: (usize, bool))
    requires
        start < sequence@.len(),
        callable(*is_less),
        agrees(*is_less, less),
    ensures
        run_left_spec(less, sequence@, start as int, r.0 as int, r.1),
{
    if start == 0 {
        return (1, true);
    }
    let mut length: usize = 1;
    let mut i: usize = start;
    let mut is_increasing = true;
    if is_less(&sequence[i], &sequence[i - 1]) {
        is_increasing = false;
        while i > 0 && is_less(&sequence[i], &sequence[i - 1])
            invariant
                i <= start < sequence@.len(),
                length == start + 1 - i,
                callable(*is_less),
                agrees(*is_less, less),
                strictly_descending(less, sequence@.subrange(i as int, start + 1)),
                i == start ==> less(sequence@[i as int], sequence@[i - 1]),
            decreases i,
        {
            assert(sequence@.subrange(i - 1, start + 1) =~= seq![sequence@[i - 1]] + sequence@.subrange(i as int, start + 1));
            length += 1;
            i -= 1;
        }
    } else {
        while i > 0 && !is_less(&sequence[i], &sequence[i - 1])
            invariant
                i <= start < sequence@.len(),
                length == start + 1 - i,
                callable(*is_less),
                agrees(*is_less, less),
                ascending(less, sequence@.subrange(i as int, start + 1)),
                i == start ==> !less(sequence@[i as int], sequence@[i - 1]),
            decreases i,
        {
            assert(sequence@.subrange(i - 1, start + 1) =~= seq![sequence@[i - 1]] + sequence@.subrange(i as int, start + 1));
            length += 1;
            i -= 1;
        }
    }
    (length, is_increasing)
}

/// Computes the power of two adjacent runs without division: while both
/// scaled midpoints share their leading binary digit, drop it and shift.
pub fn node_power_no_div(s1: usize, n1: usize, n2: usize, n: usize) -> (r: u32)
    requires
        power_args(s1 as nat, n1 as nat, n2 as nat, n as nat),
    ensures
        r == node_power_spec(s1 as nat, n1 as nat, n2 as nat, n as nat),
{
    let mut a: usize = 2 * s1 + n1;
    let mut b: usize = a + n1 + n2;
    let mut power: u32 = 0;
    proof {
        lemma2_to64();
    }
    loop
        invariant_except_break
            0 < n <= usize::MAX / 2,
            a < b < 2 * n,
            power < 64,
            pow2(power as nat) <= b - a,
            power + split_depth(a as nat, b as nat, n as nat)
                == node_power_spec(s1 as nat, n1 as nat, n2 as nat, n as nat),
        ensures
            power == node_power_spec(s1 as nat, n1 as nat, n2 as nat, n as nat),
        decreases 2 * n - (b - a),
    {
        let ghost gap = b - a;
        proof {
            lemma_pow2_unfold((power + 1) as nat);
        }
        power += 1;
        if a >= n {
            assert(a / n == 1 && b / n == 1) by (nonlinear_arith)
                requires n <= a < b < 2 * n;
            assert(a % n == a - n) by (nonlinear_arith)
                requires n <= a < 2 * n;
            a -= n;
            b -= n;
        } else if b >= n {
            assert(a / n == 0 && b / n == 1) by (nonlinear_arith)
                requires a < n <= b < 2 * n;
            break;
        } else {
            assert(a / n == 0 && b / n == 0 && a % n == a) by (nonlinear_arith)
                requires a < b < n;
        }
        proof {
            lemma2_to64();
            if power > 64 {
                lemma_pow2_strictly_increases(64, power as nat);
            }
        }
        a = 2 * a;
        b = 2 * b;
    }
    power
}


/// Inserts the first element of `v` into the sorted rest, before any equal
/// elements, so that a run can grow from right to left.
pub fn insert_sort_left<T: Copy, F: Fn(&T, &T) -> bool>(v: &mut [T], is_less: &F)
    requires
        old(v)@.len() >= 1,
        callable(*is_less),
        deterministic(*is_less),
    ensures
        final(v)@ == inserted_left(lt_of(*is_less), old(v)@[0], old(v)@.drop_first()),
{
    let ghost less = lt_of(*is_less);
    let n = v.len();
    insert_first(v, 0, n, is_less, Ghost(less));
    proof {
        lemma_inserted_left(less, old(v)@[0], old(v)@.drop_first());
        assert(old(v)@.subrange(1, n as int) =~= old(v)@.drop_first());
        assert(v@ =~= inserted_left(less, old(v)@[0], old(v)@.drop_first()));
    }
}

} // verus!
