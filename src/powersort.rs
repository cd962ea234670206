//! Run detection, the power metric, the merge and insertion entry points,
//! and the PowerSort driver with its run stack.
use vstd::prelude::*;
use vstd::seq_lib::lemma_multiset_commutative;
use vstd::std_specs::cmp::{PartialOrdSpec, OrdSpec, PartialEqSpec};
use vstd::laws_eq::obeys_eq_spec_properties;
use vstd::laws_cmp::{obeys_cmp, obeys_partial_cmp_spec_properties, obeys_cmp_ord, obeys_cmp_partial_ord};
use vstd::arithmetic::power2::{pow2, lemma_pow2_unfold};
use vstd::arithmetic::div_mod::lemma_hoist_over_denominator;
use crate::order::{callable, agrees, lt_of, deterministic, ascending, strictly_descending, is_order,
    sorted_by, class_of, le, lemma_class_of_add, lemma_ascending_sorted};
use crate::merging::{merged, merge_runs, lemma_merged_multiset};
use crate::stable::{changed_within, stable_sort_of, lemma_changed_within_trans, lemma_changed_within_widen,
    lemma_merge_step, lemma_whole_change};
use crate::runs::{reverse_range, insert_last, inserted, lemma_inserted, lemma_reverse_descending};

verus! {

/// The run that starts at `start`: `(length, true)` for the longest
/// non-decreasing stretch, `(length, false)` for the longest strictly
/// decreasing one, as chosen by the first pair.
pub open spec fn run_right_spec<T>(less: spec_fn(T, T) -> bool, s: Seq<T>, start: int, length: int, increasing: bool) -> bool {
    &&& 1 <= length <= s.len() - start
    &&& if increasing {
        &&& ascending(less, s.subrange(start, start + length))
        &&& (start + length < s.len() ==> less(s[start + length], s[start + length - 1]))
        &&& (length >= 2 || start + 1 == s.len())
    } else {
        &&& length >= 2
        &&& strictly_descending(less, s.subrange(start, start + length))
        &&& (start + length < s.len() ==> !less(s[start + length], s[start + length - 1]))
    }
}

/// Length and direction of the run that begins at `start`.
pub fn extend_run_right<T, F: Fn(&T, &T) -> bool>(sequence: &[T], start: usize, is_less: &F) -> (r: (usize, bool))
    requires
        start < sequence@.len(),
        callable(*is_less),
        deterministic(*is_less),
    ensures
        run_right_spec(lt_of(*is_less), sequence@, start as int, r.0 as int, r.1),
{
    find_run_right(sequence, start, is_less, Ghost(lt_of(*is_less)))
}

/// Length and direction of the run that begins at `start`, under the
/// relation `less` that `is_less` computes.
pub(crate) fn find_run_right<T, F: Fn(&T, &T) -> bool>(
    sequence: &[T],
    start: usize,
    is_less: &F,
    Ghost(less): Ghost<spec_fn(T, T) -> bool>,
) -> (r: (usize, bool))
    requires
        start < sequence@.len(),
        callable(*is_less),
        agrees(*is_less, less),
    ensures
        run_right_spec(less, sequence@, start as int, r.0 as int, r.1),
{
    let n = sequence.len();
    if start == n - 1 {
        return (1, true);
    }
    let mut length: usize = 1;
    let mut i: usize = start + 1;
    let mut is_increasing = true;
    if is_less(&sequence[i], &sequence[i - 1]) {
        is_increasing = false;
        while i < n && is_less(&sequence[i], &sequence[i - 1])
            invariant
                start + 1 <= i <= n,
                n == sequence@.len(),
                length == i - start,
                i == start + 1 ==> less(sequence@[i as int], sequence@[i - 1]),
                callable(*is_less),
                agrees(*is_less, less),
                strictly_descending(less, sequence@.subrange(start as int, i as int)),
            decreases n - i,
        {
            assert(sequence@.subrange(start as int, i + 1) =~= sequence@.subrange(start as int, i as int).push(sequence@[i as int]));
            length += 1;
            i += 1;
        }
    } else {
        while i < n && !is_less(&sequence[i], &sequence[i - 1])
            invariant
                start + 1 <= i <= n,
                n == sequence@.len(),
                length == i - start,
                callable(*is_less),
                agrees(*is_less, less),
                ascending(less, sequence@.subrange(start as int, i as int)),
                i == start + 1 ==> !less(sequence@[i as int], sequence@[i - 1]),
            decreases n - i,
        {
            assert(sequence@.subrange(start as int, i + 1) =~= sequence@.subrange(start as int, i as int).push(sequence@[i as int]));
            length += 1;
            i += 1;
        }
    }
    (length, is_increasing)
}


/// For `a < b`, the least `p >= 1` at which `floor(a * 2^(p-1) / n)` and
/// `floor(b * 2^(p-1) / n)` differ: compare the integer quotients by `n`;
/// while they agree, keep the remainders and double them.
pub open spec fn split_depth(a: nat, b: nat, n: nat) -> nat
    decreases (if b - a < n { n - (b - a) } else { 0 }),
    via lemma_split_depth_decreases
{
    if n == 0 || b <= a || a / n != b / n || b - a >= n {
        1
    } else {
        1 + split_depth(2 * (a % n), (2 * (a % n) + 2 * (b - a)) as nat, n)
    }
}

/// The power of two adjacent runs `[s1, s1 + n1)` and `[s1 + n1, s1 + n1 + n2)`
/// in a sequence of length `n`: the depth at which the two runs meet in the
/// nearly-optimal merge tree, read off the doubled run midpoints
/// `2 * s1 + n1` and `2 * s1 + 2 * n1 + n2`.
pub open spec fn node_power_spec(s1: nat, n1: nat, n2: nat, n: nat) -> nat {
    split_depth(2 * s1 + n1, 2 * s1 + 2 * n1 + n2, n)
}

/// The inputs on which the power of two runs is defined and computable: two
/// non-empty adjacent runs inside the sequence, whose doubled length fits.
pub open spec fn power_args(s1: nat, n1: nat, n2: nat, n: nat) -> bool {
    &&& n1 >= 1
    &&& n2 >= 1
    &&& s1 + n1 + n2 <= n
    &&& n <= usize::MAX / 2
}

#[via_fn]
proof fn lemma_split_depth_decreases(a: nat, b: nat, n: nat) {
    if !(n == 0 || b <= a || a / n != b / n || b - a >= n) {
        lemma_same_quotient(a, b, n);
    }
}

/// The binary expansion of `x / n` cut after `p` digits past the point, as
/// an integer: `floor(x * 2^p / n)`.
pub open spec fn leading_digits(x: nat, n: nat, p: nat) -> nat {
    (x * pow2(p)) / n
}

/// Shifting out an equal integer part: past the first, the leading digits of
/// `a / n` are those of `2 * (a % n) / n`, after the integer part `a / n`.
proof fn lemma_leading_digits_step(a: nat, n: nat, q: nat)
    requires
        n > 0,
    ensures
        leading_digits(a, n, q + 1) == (a / n) * pow2(q + 1) + leading_digits(2 * (a % n), n, q),
{
    let k = a / n;
    let r = a % n;
    let m = pow2(q);
    lemma_pow2_unfold(q + 1);
    assert(pow2(q + 1) == 2 * m);
    assert(a == n * k + r) by (nonlinear_arith) requires n > 0, k == a / n, r == a % n;
    assert(a * (2 * m) == (2 * r) * m + (k * (2 * m)) * n) by (nonlinear_arith)
        requires a == n * k + r;
    lemma_hoist_over_denominator(((2 * r) * m) as int, (k * (2 * m)) as int, n);
}

/// `split_depth` finds the first digit past the point at which `a / n` and
/// `b / n` differ (counting the integer part as digit zero, and the result
/// from one).
pub proof fn lemma_split_depth_digits(a: nat, b: nat, n: nat)
    requires
        n > 0,
        a < b,
    ensures
        split_depth(a, b, n) >= 1,
        leading_digits(a, n, (split_depth(a, b, n) - 1) as nat) != leading_digits(b, n, (split_depth(a, b, n) - 1) as nat),
        forall|q: nat| q + 1 < split_depth(a, b, n) ==> #[trigger] leading_digits(a, n, q) == leading_digits(b, n, q),
    decreases (if b - a < n { n - (b - a) } else { 0 }),
{
    assert(pow2(0) == 1) by {
        vstd::arithmetic::power2::lemma2_to64();
    }
    assert(leading_digits(a, n, 0) == a / n);
    assert(leading_digits(b, n, 0) == b / n);
    if a / n != b / n {
    } else {
        lemma_same_quotient(a, b, n);
        let a2 = 2 * (a % n);
        let b2 = (2 * (a % n) + 2 * (b - a)) as nat;
        assert(b % n == a % n + (b - a)) by (nonlinear_arith)
            requires n > 0, a / n == b / n, a <= b;
        assert(b2 == 2 * (b % n));
        lemma_split_depth_digits(a2, b2, n);
        let p = split_depth(a, b, n);
        assert(p == 1 + split_depth(a2, b2, n));
        lemma_leading_digits_step(a, n, (p - 2) as nat);
        lemma_leading_digits_step(b, n, (p - 2) as nat);
        assert forall|q: nat| q + 1 < p implies #[trigger] leading_digits(a, n, q) == leading_digits(b, n, q) by {
            if q > 0 {
                lemma_leading_digits_step(a, n, (q - 1) as nat);
                lemma_leading_digits_step(b, n, (q - 1) as nat);
                assert(leading_digits(a2, n, (q - 1) as nat) == leading_digits(b2, n, (q - 1) as nat));
            }
        }
    }
}

/// The power of two adjacent runs is the first binary digit at which their
/// doubled midpoints, as fractions of twice the sequence length, differ:
/// the least `p >= 1` with `floor(m1 * 2^(p-1) / n) != floor(m2 * 2^(p-1) / n)`
/// for `m1 = 2 * s1 + n1` and `m2 = 2 * s1 + 2 * n1 + n2`. Both ways of
/// computing it return this number.
pub proof fn lemma_node_power_first_differing_digit(s1: nat, n1: nat, n2: nat, n: nat)
    requires
        power_args(s1, n1, n2, n),
    ensures
        node_power_spec(s1, n1, n2, n) >= 1,
        leading_digits(2 * s1 + n1, n, (node_power_spec(s1, n1, n2, n) - 1) as nat)
            != leading_digits(2 * s1 + 2 * n1 + n2, n, (node_power_spec(s1, n1, n2, n) - 1) as nat),
        forall|q: nat| q + 1 < node_power_spec(s1, n1, n2, n) ==>
            #[trigger] leading_digits(2 * s1 + n1, n, q) == leading_digits(2 * s1 + 2 * n1 + n2, n, q),
{
    lemma_split_depth_digits(2 * s1 + n1, 2 * s1 + 2 * n1 + n2, n);
}

/// One step of the digit comparison: equal quotients leave less than `n`
/// between the two values, and the remainder keeps that gap.
pub proof fn lemma_same_quotient(a: nat, b: nat, n: nat)
    requires
        n > 0,
        a <= b,
        a / n == b / n,
    ensures
        b - a < n,
        a % n + (b - a) < n,
{
    assert(a == n * (a / n) + a % n) by (nonlinear_arith) requires n > 0;
    assert(b == n * (b / n) + b % n) by (nonlinear_arith) requires n > 0;
}

/// Computes the power of two adjacent runs by comparing integer quotients
/// and reducing by the remainder before each doubling.
pub fn node_power(s1: usize, n1: usize, n2: usize, n: usize) -> (r: usize)
    requires
        power_args(s1 as nat, n1 as nat, n2 as nat, n as nat),
    ensures
        r == node_power_spec(s1 as nat, n1 as nat, n2 as nat, n as nat),
{
    let mut a: usize = 2 * s1 + n1;
    let mut b: usize = a + n1 + n2;
    let mut power: usize = 1;
    while a / n == b / n
        invariant
            0 < n <= usize::MAX / 2,
            a < b < 2 * n,
            1 <= power <= b - a,
            power - 1 + split_depth(a as nat, b as nat, n as nat)
                == node_power_spec(s1 as nat, n1 as nat, n2 as nat, n as nat),
        decreases 2 * n - (b - a),
    {
        proof {
            lemma_same_quotient(a as nat, b as nat, n as nat);
        }
        let d: usize = b - a;
        a = 2 * (a % n);
        b = a + 2 * d;
        power += 1;
    }
    power
}


/// Finds the run that starts at `start`, turns it ascending, and grows it by
/// insertion to `min_run` elements or to the end of the sequence. Returns
/// its length.
fn next_run<T: Copy, F: Fn(&T, &T) -> bool>(
    v: &mut [T],
    start: usize,
    min_run: usize,
    is_less: &F,
    Ghost(less): Ghost<spec_fn(T, T) -> bool>,
) -> (len: usize)
    requires
        start < old(v)@.len(),
        callable(*is_less),
        agrees(*is_less, less),
    ensures
        1 <= len <= final(v)@.len() - start,
        len < min_run ==> start + len == final(v)@.len(),
        changed_within(less, old(v)@, final(v)@, start as int, start + len),
        is_order(less) ==> sorted_by(less, final(v)@.subrange(start as int, start + len)),
{
    let ghost orig = v@;
    let n = v.len();
    let (mut len, increasing) = find_run_right(v, start, is_less, Ghost(less));
    proof {
        assert(changed_within(less, orig, v@, start as int, start + len));
    }
    if !increasing {
        reverse_range(v, start, start + len);
        proof {
            let seg = orig.subrange(start as int, start + len);
            assert(v@.subrange(start as int, start + len) =~= seg.reverse());
            seg.lemma_reverse_to_multiset();
            if is_order(less) {
                lemma_reverse_descending(less, seg);
            }
        }
    } else {
        proof {
            if is_order(less) {
                lemma_ascending_sorted(less, v@.subrange(start as int, start + len));
            }
        }
    }
    while len < min_run && start + len < n
        invariant
            n == v@.len() == orig.len(),
            start < n,
            1 <= len <= n - start,
            callable(*is_less),
            agrees(*is_less, less),
            changed_within(less, orig, v@, start as int, start + len),
            is_order(less) ==> sorted_by(less, v@.subrange(start as int, start + len)),
        decreases n - start - len,
    {
        let ghost before = v@;
        insert_last(v, start, start + len + 1, is_less, Ghost(less));
        proof {
            let s = before.subrange(start as int, start + len);
            let x = before[start + len];
            lemma_inserted(less, s, x);
            assert(before.subrange(start as int, start + len + 1) =~= s.push(x));
            assert(v@.subrange(start as int, start + len + 1) =~= inserted(less, s, x));
            assert(changed_within(less, before, v@, start as int, start + len + 1));
            assert(changed_within(less, orig, before, start as int, start + len + 1)) by {
                let ob = orig.subrange(start as int, start + len + 1);
                let bb = before.subrange(start as int, start + len + 1);
                let os = orig.subrange(start as int, start + len);
                let bs = before.subrange(start as int, start + len);
                assert(before[start + len] == orig[start + len]);
                assert(ob =~= os + seq![x]);
                assert(bb =~= bs + seq![x]);
                lemma_multiset_commutative(os, seq![x]);
                lemma_multiset_commutative(bs, seq![x]);
                assert(ob.to_multiset() =~= bb.to_multiset());
                if is_order(less) {
                    assert forall|y: T| #[trigger] class_of(less, bb, y) == class_of(less, ob, y) by {
                        lemma_class_of_add(less, orig.subrange(start as int, start + len), seq![x], y);
                        lemma_class_of_add(less, before.subrange(start as int, start + len), seq![x], y);
                    }
                }
            }
            lemma_changed_within_trans(less, orig, before, v@, start as int, start as int, start + len + 1);
        }
        len += 1;
    }
    len
}


/// Merges `v[..=mid]` and `v[mid + 1..]` in place, stably.
pub fn merge<T: Copy, F: Fn(&T, &T) -> bool>(v: &mut [T], mid: usize, is_less: &F)
    requires
        mid < old(v)@.len(),
        callable(*is_less),
        deterministic(*is_less),
    ensures
        final(v)@ == merged(lt_of(*is_less), old(v)@.subrange(0, mid + 1), old(v)@.subrange(mid + 1, old(v)@.len() as int)),
{
    let mut buf: Vec<T> = Vec::new();
    merge_buffer_reuse(v, mid, &mut buf, is_less);
}

/// Merges `v[..=mid]` and `v[mid + 1..]` in place, stably, with `buf` as
/// scratch space, so that one buffer can serve many merges. Afterwards `buf`
/// holds a copy of the left run.
pub fn merge_buffer_reuse<T: Copy, F: Fn(&T, &T) -> bool>(v: &mut [T], mid: usize, buf: &mut Vec<T>, is_less: &F)
    requires
        mid < old(v)@.len(),
        callable(*is_less),
        deterministic(*is_less),
    ensures
        final(v)@ == merged(lt_of(*is_less), old(v)@.subrange(0, mid + 1), old(v)@.subrange(mid + 1, old(v)@.len() as int)),
        final(buf)@ == old(v)@.subrange(0, mid + 1),
{
    let ghost less = lt_of(*is_less);
    let n = v.len();
    merge_runs(v, 0, mid + 1, n, buf, is_less, Ghost(less));
    proof {
        let m = merged(less, old(v)@.subrange(0, mid + 1), old(v)@.subrange(mid + 1, n as int));
        lemma_merged_multiset(less, old(v)@.subrange(0, mid + 1), old(v)@.subrange(mid + 1, n as int));
        assert(v@ =~= m);
    }
}

/// Inserts the last element of `v` into the sorted rest, after any equal
/// elements.
pub fn insert_sort<T: Copy, F: Fn(&T, &T) -> bool>(v: &mut [T], is_less: &F)
    requires
        old(v)@.len() >= 1,
        callable(*is_less),
        deterministic(*is_less),
    ensures
        final(v)@ == inserted(lt_of(*is_less), old(v)@.drop_last(), old(v)@.last()),
{
    let ghost less = lt_of(*is_less);
    let n = v.len();
    insert_last(v, 0, n, is_less, Ghost(less));
    proof {
        lemma_inserted(less, old(v)@.drop_last(), old(v)@.last());
        assert(old(v)@.subrange(0, n - 1) =~= old(v)@.drop_last());
        assert(v@ =~= inserted(less, old(v)@.drop_last(), old(v)@.last()));
    }
}

/// Insertion sort under the relation `less` that `is_less` computes: each
/// element in turn is inserted into the sorted prefix before it.
pub(crate) fn insertion_sort_by<T: Copy, F: Fn(&T, &T) -> bool>(
    v: &mut [T],
    is_less: &F,
    Ghost(less): Ghost<spec_fn(T, T) -> bool>,
)
    requires
        callable(*is_less),
        agrees(*is_less, less),
    ensures
        stable_sort_of(less, old(v)@, final(v)@),
{
    let ghost orig = v@;
    let n = v.len();
    let mut i: usize = 0;
    while i < n
        invariant
            n == v@.len() == orig.len(),
            i <= n,
            callable(*is_less),
            agrees(*is_less, less),
            changed_within(less, orig, v@, 0, i as int),
            is_order(less) ==> sorted_by(less, v@.subrange(0, i as int)),
        decreases n - i,
    {
        let ghost before = v@;
        insert_last(v, 0, i + 1, is_less, Ghost(less));
        proof {
            let s = before.subrange(0, i as int);
            let x = before[i as int];
            lemma_inserted(less, s, x);
            assert(before.subrange(0, i + 1) =~= s.push(x));
            assert(v@.subrange(0, i + 1) =~= inserted(less, s, x));
            assert(changed_within(less, before, v@, 0, i + 1));
            lemma_changed_within_widen(less, orig, before, 0, i as int, 0, i + 1);
            lemma_changed_within_trans(less, orig, before, v@, 0, 0, i + 1);
        }
        i += 1;
    }
    proof {
        lemma_whole_change(less, orig, v@);
    }
}

/// Sorts `v` stably by insertion.
pub fn insertion_sort<T: Copy, F: Fn(&T, &T) -> bool>(v: &mut [T], is_less: F)
    requires
        callable(is_less),
        deterministic(is_less),
    ensures
        stable_sort_of(lt_of(is_less), old(v)@, final(v)@),
{
    insertion_sort_by(v, &is_less, Ghost(lt_of(is_less)));
}


/// A pending run `[start, start + length)` on the stack, with the power it
/// had towards the run that followed it when it was pushed.
#[derive(Clone, Copy)]
struct Run {
    start: usize,
    length: usize,
    power: usize,
}

spec fn run_end(r: Run) -> int {
    r.start + r.length
}

/// The stacked runs tile `[0, s1)` from left to right, each non-empty,
/// with powers that never decrease towards the top, and, under an order,
/// sorted in `v`.
spec fn stack_ok<T>(less: spec_fn(T, T) -> bool, v: Seq<T>, runs: Seq<Run>, s1: int) -> bool {
    &&& runs.len() == 0 ==> s1 == 0
    &&& runs.len() > 0 ==> runs[0].start == 0 && run_end(runs.last()) == s1
    &&& forall|k: int| 0 <= k < runs.len() - 1 ==> #[trigger] run_end(runs[k]) == runs[k + 1].start
    &&& forall|i: int, j: int| 0 <= i < j < runs.len() ==> run_end(#[trigger] runs[i]) <= #[trigger] runs[j].start
    &&& forall|k: int| 0 <= k < runs.len() ==> #[trigger] runs[k].length >= 1 && run_end(runs[k]) <= s1
    &&& forall|i: int, j: int| 0 <= i < j < runs.len() ==> #[trigger] runs[i].power <= #[trigger] runs[j].power
    &&& is_order(less) ==> forall|k: int| 0 <= k < runs.len() ==>
        sorted_by(less, v.subrange(#[trigger] runs[k].start as int, run_end(runs[k])))
}

/// Changes at or after `from` leave the stacked runs below it intact.
proof fn lemma_stack_frame<T>(less: spec_fn(T, T) -> bool, v: Seq<T>, w: Seq<T>, runs: Seq<Run>, s1: int, from: int)
    requires
        stack_ok(less, v, runs, s1),
        s1 <= from,
        v.len() == w.len(),
        s1 <= v.len(),
        forall|k: int| 0 <= k < from ==> #[trigger] w[k] == v[k],
    ensures
        stack_ok(less, w, runs, s1),
{
    if is_order(less) {
        assert forall|k: int| 0 <= k < runs.len() implies
            sorted_by(less, w.subrange(#[trigger] runs[k].start as int, run_end(runs[k]))) by {
            let (a, b) = (runs[k].start as int, run_end(runs[k]));
            assert(w.subrange(a, b) =~= v.subrange(a, b));
        }
    }
}

/// Sorts `v` stably with PowerSort: inputs shorter than `max_insertion` go to
/// insertion sort; otherwise runs shorter than `min_run` are grown by
/// insertion, and adjacent runs are merged in the order given by their power.
pub fn power_sort_with<T: Copy, F: Fn(&T, &T) -> bool>(v: &mut [T], is_less: &F, min_run: usize, max_insertion: usize)
    requires
        old(v)@.len() <= usize::MAX / 2,
        callable(*is_less),
        deterministic(*is_less),
    ensures
        stable_sort_of(lt_of(*is_less), old(v)@, final(v)@),
{
    power_sort_by(v, is_less, Ghost(lt_of(*is_less)), min_run, max_insertion);
}

/// PowerSort under the relation `less` that `is_less` computes.
pub(crate) fn power_sort_by<T: Copy, F: Fn(&T, &T) -> bool>(
    v: &mut [T],
    is_less: &F,
    Ghost(less): Ghost<spec_fn(T, T) -> bool>,
    min_run: usize,
    max_insertion: usize,
)
    requires
        old(v)@.len() <= usize::MAX / 2,
        callable(*is_less),
        agrees(*is_less, less),
    ensures
        stable_sort_of(less, old(v)@, final(v)@),
{
    let ghost orig = v@;
    let n = v.len();
    if n < 2 || n < max_insertion {
        insertion_sort_by(v, is_less, Ghost(less));
        return;
    }
    let mut runs: Vec<Run> = Vec::with_capacity(capacity(n));
    let mut buf: Vec<T> = Vec::with_capacity(n / 2);
    let mut s1: usize = 0;
    let mut n1: usize = next_run(v, 0, min_run, is_less, Ghost(less));
    proof {
        lemma_changed_within_widen(less, orig, v@, 0, n1 as int, 0, n as int);
    }
    while s1 + n1 < n
        invariant
            n == v@.len() == orig.len(),
            n <= usize::MAX / 2,
            callable(*is_less),
            agrees(*is_less, less),
            1 <= n1,
            s1 + n1 <= n,
            changed_within(less, orig, v@, 0, n as int),
            stack_ok(less, v@, runs@, s1 as int),
            is_order(less) ==> sorted_by(less, v@.subrange(s1 as int, s1 + n1)),
        decreases n - (s1 + n1),
    {
        let s2 = s1 + n1;
        let ghost before = v@;
        let n2 = next_run(v, s2, min_run, is_less, Ghost(less));
        proof {
            lemma_changed_within_widen(less, before, v@, s2 as int, s2 + n2, 0, n as int);
            lemma_changed_within_trans(less, orig, before, v@, 0, 0, n as int);
            lemma_stack_frame(less, before, v@, runs@, s1 as int, s2 as int);
            assert(v@.subrange(s1 as int, s2 as int) =~= before.subrange(s1 as int, s2 as int));
        }
        let power = node_power(s1, n1, n2, n);
        while runs.len() > 0 && runs[runs.len() - 1].power > power
            invariant
                n == v@.len() == orig.len(),
                n <= usize::MAX / 2,
                callable(*is_less),
                agrees(*is_less, less),
                1 <= n1,
                s1 + n1 == s2,
                1 <= n2,
                s2 + n2 <= n,
                changed_within(less, orig, v@, 0, n as int),
                stack_ok(less, v@, runs@, s1 as int),
                is_order(less) ==> sorted_by(less, v@.subrange(s1 as int, s1 + n1)),
                is_order(less) ==> sorted_by(less, v@.subrange(s2 as int, s2 + n2)),
            decreases runs.len(),
        {
            let run = runs.pop().unwrap();
            let ghost before = v@;
            let ghost rest = runs@;
            merge_runs(v, run.start, s1, s1 + n1, &mut buf, is_less, Ghost(less));
            proof {
                lemma_merge_step(less, before, v@, run.start as int, s1 as int, s1 + n1);
                lemma_changed_within_widen(less, before, v@, run.start as int, s1 + n1, 0, n as int);
                lemma_changed_within_trans(less, orig, before, v@, 0, 0, n as int);
                assert(v@.subrange(s2 as int, s2 + n2) =~= before.subrange(s2 as int, s2 + n2));
            }
            n1 += run.length;
            s1 = run.start;
            proof {
                lemma_stack_frame(less, before, v@, rest, s1 as int, s1 as int);
            }
        }
        runs.push(Run { start: s1, length: n1, power });
        s1 = s2;
        n1 = n2;
    }
    while runs.len() > 0
        invariant
            n == v@.len() == orig.len(),
            callable(*is_less),
            agrees(*is_less, less),
            1 <= n1,
            s1 + n1 == n,
            changed_within(less, orig, v@, 0, n as int),
            stack_ok(less, v@, runs@, s1 as int),
            is_order(less) ==> sorted_by(less, v@.subrange(s1 as int, s1 + n1)),
        decreases runs.len(),
    {
        let run = runs.pop().unwrap();
        let ghost before = v@;
        let ghost rest = runs@;
        merge_runs(v, run.start, s1, n, &mut buf, is_less, Ghost(less));
        proof {
            lemma_merge_step(less, before, v@, run.start as int, s1 as int, n as int);
            lemma_changed_within_widen(less, before, v@, run.start as int, n as int, 0, n as int);
            lemma_changed_within_trans(less, orig, before, v@, 0, 0, n as int);
        }
        n1 += run.length;
        s1 = run.start;
        proof {
            lemma_stack_frame(less, before, v@, rest, s1 as int, s1 as int);
        }
    }
    proof {
        lemma_whole_change(less, orig, v@);
    }
}


/// One more than the base-two logarithm of `n`, rounded down; one for an
/// empty sequence.
pub open spec fn capacity_spec(n: nat) -> nat
    decreases n,
{
    if n <= 1 {
        1
    } else {
        1 + capacity_spec(n / 2)
    }
}

proof fn lemma_capacity_bound(n: nat)
    ensures
        n >= 1 ==> capacity_spec(n) <= n,
        n > 1 ==> capacity_spec(n) >= 2,
    decreases n,
{
    if n > 1 {
        lemma_capacity_bound(n / 2);
    }
}

/// The number of slots reserved for the run stack of a sequence of length `n`.
pub fn capacity(n: usize) -> (r: usize)
    ensures
        r == capacity_spec(n as nat),
{
    let mut m: usize = n;
    let mut r: usize = 1;
    proof {
        lemma_capacity_bound(n as nat);
    }
    while m > 1
        invariant
            r + capacity_spec(m as nat) == 1 + capacity_spec(n as nat),
            capacity_spec(n as nat) <= n || n == 0,
            m > 1 ==> capacity_spec(m as nat) >= 2,
        decreases m,
    {
        m = m / 2;
        r += 1;
        proof {
            lemma_capacity_bound(m as nat);
        }
    }
    r
}

/// Runs shorter than this are grown by insertion.
pub const MIN_RUN_LENGTH: usize = 10;

/// Sequences shorter than this are sorted by insertion alone.
pub const MAX_INSERTION: usize = 20;

/// Sorts `v` stably with PowerSort under `is_less`.
pub fn power_sort<T: Copy, F: Fn(&T, &T) -> bool>(v: &mut [T], is_less: F)
    requires
        old(v)@.len() <= usize::MAX / 2,
        callable(is_less),
        deterministic(is_less),
    ensures
        stable_sort_of(lt_of(is_less), old(v)@, final(v)@),
{
    power_sort_by(v, &is_less, Ghost(lt_of(is_less)), MIN_RUN_LENGTH, MAX_INSERTION);
}

/// `a < b` in the natural order of `T`.
pub open spec fn natural_lt<T: Ord>(a: T, b: T) -> bool {
    a.partial_cmp_spec(&b) == Some(core::cmp::Ordering::Less)
}

/// `a < b` in the natural order of `T`.
pub fn natural_less<T: Ord>(a: &T, b: &T) -> (r: bool)
    requires
        T::obeys_partial_cmp_spec(),
    ensures
        r == natural_lt(*a, *b),
{
    *a < *b
}

/// Sorts `v` stably in the natural order of `T`.
pub fn sort<T: Copy + Ord>(v: &mut [T])
    requires
        old(v)@.len() <= usize::MAX / 2,
        T::obeys_partial_cmp_spec(),
    ensures
        stable_sort_of(natural_order::<T>(), old(v)@, final(v)@),
{
    power_sort_by(v, &natural_less::<T>, Ghost(natural_order::<T>()), MIN_RUN_LENGTH, MAX_INSERTION);
}

/// The natural order of `T` as a relation.
pub open spec fn natural_order<T: Ord>() -> spec_fn(T, T) -> bool {
    |a: T, b: T| natural_lt(a, b)
}

/// Where `T`'s comparison obeys the laws of a total order, its natural
/// order is a strict weak order, so `sort` sorts stably in it.
pub proof fn lemma_natural_order_is_order<T: Ord>()
    requires
        obeys_cmp::<T>(),
    ensures
        is_order(natural_order::<T>()),
{
    reveal(obeys_partial_cmp_spec_properties);
    reveal(obeys_cmp_ord);
    reveal(obeys_cmp_partial_ord);
    reveal(obeys_eq_spec_properties);
    let lt = natural_order::<T>();
    assert forall|a: T, b: T| #[trigger] lt(a, b) implies !lt(b, a) by {
        assert(b.partial_cmp_spec(&a) == Some(core::cmp::Ordering::Greater));
    }
    assert forall|a: T, b: T, c: T| #[trigger] le(lt, a, b) && #[trigger] le(lt, b, c) implies le(lt, a, c) by {
        assert(a.partial_cmp_spec(&b) == Some(a.cmp_spec(&b)));
        assert(b.partial_cmp_spec(&c) == Some(b.cmp_spec(&c)));
        assert(c.partial_cmp_spec(&a) == Some(c.cmp_spec(&a)));
        assert(b.partial_cmp_spec(&a) == Some(b.cmp_spec(&a)));
        assert(c.partial_cmp_spec(&b) == Some(c.cmp_spec(&b)));
        assert(a.partial_cmp_spec(&c) == Some(a.cmp_spec(&c)));
        if lt(c, a) {
            if b.partial_cmp_spec(&a) == Some(core::cmp::Ordering::Equal) {
                if c.partial_cmp_spec(&b) == Some(core::cmp::Ordering::Equal) {
                    assert(c.eq_spec(&b) && b.eq_spec(&a));
                    assert(c.eq_spec(&a));
                } else {
                    assert(b.partial_cmp_spec(&c) == Some(core::cmp::Ordering::Less));
                }
            } else {
                assert(a.partial_cmp_spec(&b) == Some(core::cmp::Ordering::Less));
            }
        }
    }
}

} // verus!
