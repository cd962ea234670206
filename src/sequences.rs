//! Run lengths for adversarial inputs: sequences of runs on which merge
//! policies that look only at the most recent runs do badly.
use vstd::prelude::*;

verus! {

/// The run lengths of the "drag" sequence of Buss and Knop for a total of
/// `n`: `[n]` up to three, else the lengths for `n / 2`, then those for
/// `n / 2 - 1`, then `n % 2 + 1`.
pub open spec fn drag_lengths(n: nat) -> Seq<nat>
    decreases n,
{
    if n <= 3 {
        seq![n]
    } else {
        drag_lengths(n / 2) + drag_lengths((n / 2 - 1) as nat) + seq![(n % 2 + 1) as nat]
    }
}

/// The sum of a sequence of lengths.
pub open spec fn total(s: Seq<nat>) -> nat
    decreases s.len(),
{
    if s.len() == 0 {
        0
    } else {
        total(s.drop_last()) + s.last()
    }
}

/// The lengths of a sequence as natural numbers.
pub open spec fn as_nats(s: Seq<usize>) -> Seq<nat> {
    s.map_values(|x: usize| x as nat)
}

proof fn lemma_total_add(a: Seq<nat>, b: Seq<nat>)
    ensures
        total(a + b) == total(a) + total(b),
    decreases b.len(),
{
    if b.len() > 0 {
        assert((a + b).drop_last() =~= a + b.drop_last());
        lemma_total_add(a, b.drop_last());
    } else {
        assert(a + b =~= a);
    }
}

/// The drag run lengths for `n` add up to `n`, and there are at most `n`
/// of them (one when `n` is at most three).
pub proof fn lemma_drag_lengths_total(n: nat)
    ensures
        total(drag_lengths(n)) == n,
        1 <= drag_lengths(n).len() <= if n == 0 { 1 } else { n },
    decreases n,
{
    assert(total(Seq::<nat>::empty()) == 0);
    if n <= 3 {
        assert(seq![n].drop_last() =~= Seq::<nat>::empty());
        assert(total(seq![n]) == n);
    } else {
        let a = drag_lengths(n / 2);
        let b = drag_lengths((n / 2 - 1) as nat);
        let c = seq![(n % 2 + 1) as nat];
        lemma_drag_lengths_total(n / 2);
        lemma_drag_lengths_total((n / 2 - 1) as nat);
        lemma_total_add(a, b);
        lemma_total_add(a + b, c);
        assert(c.drop_last() =~= Seq::<nat>::empty());
        assert(total(c) == n % 2 + 1);
    }
}

/// The run lengths of the drag sequence for a total of `n`.
pub fn timsort_drag_run_lengths(n: usize) -> (r: Vec<usize>)
    ensures
        as_nats(r@) == drag_lengths(n as nat),
    decreases n,
{
    let mut lengths: Vec<usize>;
    if n <= 3 {
        lengths = vec![n];
        proof {
            assert(as_nats(lengths@) =~= drag_lengths(n as nat));
        }
    } else {
        let n_prime = n / 2;
        let last = n % 2 + 1;
        lengths = timsort_drag_run_lengths(n_prime);
        let mut rest = timsort_drag_run_lengths(n_prime - 1);
        let ghost left = lengths@;
        let ghost right = rest@;
        lengths.append(&mut rest);
        lengths.push(last);
        proof {
            assert(lengths@ =~= left + right + seq![last]);
            assert(as_nats(lengths@) =~= as_nats(left) + as_nats(right) + seq![last as nat]);
        }
    }
    lengths
}

} // verus!
