//! PowerSort variants that differ from the default in how short runs and
//! short inputs are handled.
use vstd::prelude::*;
use crate::order::{callable, agrees, lt_of, deterministic, is_order, sorted_by, lemma_ascending_sorted};
use crate::alternatives::find_run_left;
use crate::merging::merge_runs;
use crate::runs::{reverse_range, insert_first, lemma_inserted_left, lemma_reverse_descending};
use crate::stable::{stable_sort_of, changed_within, lemma_changed_within_widen, lemma_changed_within_trans,
    lemma_merge_step, lemma_whole_change};
use crate::powersort::{power_sort_by, insertion_sort_by, node_power, capacity,
    MIN_RUN_LENGTH, MAX_INSERTION};

verus! {

/// Sorts `v` stably with PowerSort on the natural runs alone: no run is
/// grown by insertion and no input is handed to insertion sort.
pub fn power_sort_no_insertion<T: Copy, F: Fn(&T, &T) -> bool>(v: &mut [T], is_less: F)
    requires
        old(v)@.len() <= usize::MAX / 2,
        callable(is_less),
        deterministic(is_less),
    ensures
        stable_sort_of(lt_of(is_less), old(v)@, final(v)@),
{
    power_sort_by(v, &is_less, Ghost(lt_of(is_less)), 0, 0);
}


/// Finds the run that ends at `end`, turns it ascending, and grows it
/// leftwards by insertion to `min_run` elements or to the start of the
/// sequence. Returns its length.
fn next_run_left<T: Copy, F: Fn(&T, &T) -> bool>(
    v: &mut [T],
    end: usize,
    min_run: usize,
    is_less: &F,
    Ghost(less): Ghost<spec_fn(T, T) -> bool>,
) -> (len: usize)
    requires
        end < old(v)@.len(),
        callable(*is_less),
        agrees(*is_less, less),
    ensures
        1 <= len <= end + 1,
        len < min_run ==> len == end + 1,
        changed_within(less, old(v)@, final(v)@, end + 1 - len, end + 1),
        is_order(less) ==> sorted_by(less, final(v)@.subrange(end + 1 - len, end + 1)),
{
    let ghost orig = v@;
    let n = v.len();
    let (mut len, increasing) = find_run_left(v, end, is_less, Ghost(less));
    proof {
        assert(changed_within(less, orig, v@, end + 1 - len, end + 1));
    }
    if !increasing {
        reverse_range(v, end + 1 - len, end + 1);
        proof {
            let seg = orig.subrange(end + 1 - len, end + 1);
            assert(v@.subrange(end + 1 - len, end + 1) =~= seg.reverse());
            seg.lemma_reverse_to_multiset();
            if is_order(less) {
                lemma_reverse_descending(less, seg);
            }
        }
    } else {
        proof {
            if is_order(less) {
                lemma_ascending_sorted(less, v@.subrange(end + 1 - len, end + 1));
            }
        }
    }
    while len < min_run && end + 1 - len > 0
        invariant
            end < n == v@.len() == orig.len(),
            1 <= len <= end + 1,
            callable(*is_less),
            agrees(*is_less, less),
            changed_within(less, orig, v@, end + 1 - len, end + 1),
            is_order(less) ==> sorted_by(less, v@.subrange(end + 1 - len, end + 1)),
        decreases end + 1 - len,
    {
        let ghost before = v@;
        insert_first(v, end - len, end + 1, is_less, Ghost(less));
        proof {
            let s = before.subrange(end + 1 - len, end + 1);
            let x = before[end - len];
            lemma_inserted_left(less, x, s);
            assert(before.subrange(end - len, end + 1) =~= seq![x] + s);
            assert(v@.subrange(end - len, end + 1) =~= crate::runs::inserted_left(less, x, s));
            assert(changed_within(less, before, v@, end - len, end + 1));
            lemma_changed_within_widen(less, orig, before, end + 1 - len, end + 1, end - len, end + 1);
            lemma_changed_within_trans(less, orig, before, v@, end - len, end - len, end + 1);
        }
        len += 1;
    }
    len
}

/// A pending run `[start, start + length)` on the stack, with the power it
/// had towards the run before it when it was pushed.
#[derive(Clone, Copy)]
struct Run {
    start: usize,
    length: usize,
    power: usize,
}

spec fn run_end(r: Run) -> int {
    r.start + r.length
}

/// The stacked runs tile `[from, n)` from right to left, each non-empty,
/// with powers that never decrease towards the top, and, under an order,
/// sorted in `v`.
spec fn stack_ok<T>(less: spec_fn(T, T) -> bool, v: Seq<T>, runs: Seq<Run>, from: int, n: int) -> bool {
    &&& runs.len() == 0 ==> from == n
    &&& runs.len() > 0 ==> run_end(runs[0]) == n && runs.last().start == from
    &&& forall|k: int| 0 <= k < runs.len() - 1 ==> #[trigger] run_end(runs[k + 1]) == runs[k].start
    &&& forall|i: int, j: int| 0 <= i < j < runs.len() ==> run_end(#[trigger] runs[j]) <= #[trigger] runs[i].start
    &&& forall|k: int| 0 <= k < runs.len() ==> #[trigger] runs[k].length >= 1 && runs[k].start >= from && run_end(runs[k]) <= n
    &&& forall|i: int, j: int| 0 <= i < j < runs.len() ==> #[trigger] runs[i].power <= #[trigger] runs[j].power
    &&& is_order(less) ==> forall|k: int| 0 <= k < runs.len() ==>
        sorted_by(less, v.subrange(#[trigger] runs[k].start as int, run_end(runs[k])))
}

/// Popping the top run leaves the runs below it tiling from where it began.
proof fn lemma_stack_pop<T>(less: spec_fn(T, T) -> bool, v: Seq<T>, runs: Seq<Run>, n: int)
    requires
        runs.len() > 0,
        stack_ok(less, v, runs, runs.last().start as int, n),
    ensures
        stack_ok(less, v, runs.drop_last(), run_end(runs.last()), n),
{
    let rest = runs.drop_last();
    let top = runs.len() - 1;
    assert forall|k: int| 0 <= k < rest.len() implies #[trigger] rest[k].start >= run_end(runs.last()) by {
        assert(run_end(runs[top]) <= runs[k].start);
    }
    if rest.len() > 0 {
        let k = rest.len() - 1;
        assert(run_end(runs[k + 1]) == runs[k].start);
    }
    assert(forall|k: int| 0 <= k < rest.len() - 1 ==> #[trigger] run_end(rest[k + 1]) == rest[k].start);
}

/// Changes below `bound` leave the stacked runs at or above it intact.
proof fn lemma_stack_frame<T>(less: spec_fn(T, T) -> bool, v: Seq<T>, w: Seq<T>, runs: Seq<Run>, from: int, n: int, bound: int)
    requires
        stack_ok(less, v, runs, from, n),
        bound <= from,
        v.len() == w.len() == n,
        forall|k: int| bound <= k < n ==> #[trigger] w[k] == v[k],
    ensures
        stack_ok(less, w, runs, from, n),
{
    if is_order(less) {
        assert forall|k: int| 0 <= k < runs.len() implies
            sorted_by(less, w.subrange(#[trigger] runs[k].start as int, run_end(runs[k]))) by {
            let (a, b) = (runs[k].start as int, run_end(runs[k]));
            assert(w.subrange(a, b) =~= v.subrange(a, b));
        }
    }
}

/// Sorts `v` stably with PowerSort, finding the runs from right to left.
pub fn power_sort_left<T: Copy, F: Fn(&T, &T) -> bool>(v: &mut [T], is_less: F)
    requires
        old(v)@.len() <= usize::MAX / 2,
        callable(is_less),
        deterministic(is_less),
    ensures
        stable_sort_of(lt_of(is_less), old(v)@, final(v)@),
{
    power_sort_left_by(v, &is_less, Ghost(lt_of(is_less)));
}

/// Right-to-left PowerSort under the relation `less` that `is_less`
/// computes.
fn power_sort_left_by<T: Copy, F: Fn(&T, &T) -> bool>(
    v: &mut [T],
    is_less: &F,
    Ghost(less): Ghost<spec_fn(T, T) -> bool>,
)
    requires
        old(v)@.len() <= usize::MAX / 2,
        callable(*is_less),
        agrees(*is_less, less),
    ensures
        stable_sort_of(less, old(v)@, final(v)@),
{
    let ghost orig = v@;
    let n = v.len();
    if n < 2 || n < MAX_INSERTION {
        insertion_sort_by(v, is_less, Ghost(less));
        return;
    }
    let mut runs: Vec<Run> = Vec::with_capacity(capacity(n));
    let mut buf: Vec<T> = Vec::with_capacity(n / 2);
    let mut n1: usize = next_run_left(v, n - 1, MIN_RUN_LENGTH, is_less, Ghost(less));
    let mut s1: usize = n - n1;
    proof {
        lemma_changed_within_widen(less, orig, v@, s1 as int, n as int, 0, n as int);
    }
    while s1 > 0
        invariant
            n == v@.len() == orig.len(),
            n <= usize::MAX / 2,
            callable(*is_less),
            agrees(*is_less, less),
            1 <= n1,
            s1 + n1 <= n,
            changed_within(less, orig, v@, 0, n as int),
            stack_ok(less, v@, runs@, s1 + n1, n as int),
            is_order(less) ==> sorted_by(less, v@.subrange(s1 as int, s1 + n1)),
        decreases s1,
    {
        let e2 = s1 - 1;
        let ghost before = v@;
        let n2 = next_run_left(v, e2, MIN_RUN_LENGTH, is_less, Ghost(less));
        let s2 = s1 - n2;
        proof {
            lemma_changed_within_widen(less, before, v@, s2 as int, s1 as int, 0, n as int);
            lemma_changed_within_trans(less, orig, before, v@, 0, 0, n as int);
            lemma_stack_frame(less, before, v@, runs@, s1 + n1, n as int, s1 as int);
            assert(v@.subrange(s1 as int, s1 + n1) =~= before.subrange(s1 as int, s1 + n1));
        }
        let power = node_power(s2, n2, n1, n);
        while runs.len() > 0 && runs[runs.len() - 1].power > power
            invariant
                n == v@.len() == orig.len(),
                callable(*is_less),
                agrees(*is_less, less),
                1 <= n1,
                1 <= n2,
                s2 + n2 == s1,
                s1 + n1 <= n,
                changed_within(less, orig, v@, 0, n as int),
                stack_ok(less, v@, runs@, s1 + n1, n as int),
                is_order(less) ==> sorted_by(less, v@.subrange(s1 as int, s1 + n1)),
                is_order(less) ==> sorted_by(less, v@.subrange(s2 as int, s1 as int)),
            decreases runs.len(),
        {
            let ghost old_runs = runs@;
            let run = runs.pop().unwrap();
            let ghost before = v@;
            let ghost rest = runs@;
            proof {
                lemma_stack_pop(less, before, old_runs, n as int);
            }
            let hi = run.start + run.length;
            merge_runs(v, s1, s1 + n1, hi, &mut buf, is_less, Ghost(less));
            proof {
                lemma_merge_step(less, before, v@, s1 as int, s1 + n1, hi as int);
                lemma_changed_within_widen(less, before, v@, s1 as int, hi as int, 0, n as int);
                lemma_changed_within_trans(less, orig, before, v@, 0, 0, n as int);
                assert(v@.subrange(s2 as int, s1 as int) =~= before.subrange(s2 as int, s1 as int));
            }
            n1 += run.length;
            proof {
                lemma_stack_frame(less, before, v@, rest, s1 + n1, n as int, s1 + n1);
            }
        }
        runs.push(Run { start: s1, length: n1, power });
        s1 = s2;
        n1 = n2;
    }
    while runs.len() > 0
        invariant
            n == v@.len() == orig.len(),
            callable(*is_less),
            agrees(*is_less, less),
            1 <= n1,
            s1 == 0,
            n1 <= n,
            changed_within(less, orig, v@, 0, n as int),
            stack_ok(less, v@, runs@, n1 as int, n as int),
            is_order(less) ==> sorted_by(less, v@.subrange(0, n1 as int)),
        decreases runs.len(),
    {
        let ghost old_runs = runs@;
        let run = runs.pop().unwrap();
        let ghost before = v@;
        let ghost rest = runs@;
        proof {
            lemma_stack_pop(less, before, old_runs, n as int);
        }
        let hi = run.start + run.length;
        merge_runs(v, 0, n1, hi, &mut buf, is_less, Ghost(less));
        proof {
            lemma_merge_step(less, before, v@, 0, n1 as int, hi as int);
            lemma_changed_within_widen(less, before, v@, 0, hi as int, 0, n as int);
            lemma_changed_within_trans(less, orig, before, v@, 0, 0, n as int);
        }
        n1 += run.length;
        proof {
            lemma_stack_frame(less, before, v@, rest, n1 as int, n as int, n1 as int);
        }
    }
    proof {
        lemma_whole_change(less, orig, v@);
    }
}

} // verus!
