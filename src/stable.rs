//! What a stable sort is, and the bookkeeping that shows a sequence of
//! in-place steps to be one: each step changes a stretch of the sequence
//! without changing its elements or the order among equal elements.
use vstd::prelude::*;
use vstd::seq_lib::lemma_multiset_commutative;
use crate::order::{is_order, le, sorted_by, equivalent, class_of, lemma_class_of_add, lemma_class_of_none};
use crate::merging::{merged, spliced, lemma_sorted_tail, lemma_merged_multiset, lemma_merged_sorted, lemma_merged_classes};
use crate::runs::{lemma_splice_multiset, lemma_splice_classes};

verus! {

/// `new` differs from `old` only inside `[lo, hi)`, where it holds the same
/// elements, and under an order the same classes of equal elements.
pub open spec fn changed_within<T>(less: spec_fn(T, T) -> bool, old: Seq<T>, new: Seq<T>, lo: int, hi: int) -> bool {
    &&& 0 <= lo <= hi <= old.len() == new.len()
    &&& forall|k: int| 0 <= k < lo || hi <= k < old.len() ==> #[trigger] new[k] == old[k]
    &&& new.subrange(lo, hi).to_multiset() == old.subrange(lo, hi).to_multiset()
    &&& is_order(less) ==> forall|x: T| #[trigger] class_of(less, new.subrange(lo, hi), x)
        == class_of(less, old.subrange(lo, hi), x)
}

/// A change confined to a stretch keeps the elements and the classes of the
/// whole sequence.
pub proof fn lemma_changed_within<T>(less: spec_fn(T, T) -> bool, old: Seq<T>, new: Seq<T>, lo: int, hi: int)
    requires
        changed_within(less, old, new, lo, hi),
    ensures
        new.to_multiset() == old.to_multiset(),
        is_order(less) ==> forall|x: T| #[trigger] class_of(less, new, x) == class_of(less, old, x),
{
    let mid = new.subrange(lo, hi);
    assert(new =~= spliced(old, lo, hi, mid));
    lemma_splice_multiset(old, lo, hi, mid);
    if is_order(less) {
        assert forall|x: T| #[trigger] class_of(less, new, x) == class_of(less, old, x) by {
            lemma_splice_classes(less, old, lo, hi, mid, x);
        }
    }
}

/// Changes confined to two nested stretches compose.
pub proof fn lemma_changed_within_trans<T>(less: spec_fn(T, T) -> bool, a: Seq<T>, b: Seq<T>, c: Seq<T>, lo: int, mid: int, hi: int)
    requires
        lo <= mid,
        changed_within(less, a, b, lo, hi),
        changed_within(less, b, c, mid, hi),
    ensures
        changed_within(less, a, c, lo, hi),
{
    let sb = b.subrange(lo, hi);
    let sc = c.subrange(lo, hi);
    assert(changed_within(less, sb, sc, mid - lo, hi - lo)) by {
        assert(sb.subrange(mid - lo, hi - lo) =~= b.subrange(mid, hi));
        assert(sc.subrange(mid - lo, hi - lo) =~= c.subrange(mid, hi));
    }
    lemma_changed_within(less, sb, sc, mid - lo, hi - lo);
}

/// A change confined to a stretch is confined to any stretch around it.
pub proof fn lemma_changed_within_widen<T>(less: spec_fn(T, T) -> bool, a: Seq<T>, b: Seq<T>, lo: int, hi: int, lo2: int, hi2: int)
    requires
        changed_within(less, a, b, lo, hi),
        0 <= lo2 <= lo,
        hi <= hi2 <= a.len(),
    ensures
        changed_within(less, a, b, lo2, hi2),
{
    let pre = a.subrange(lo2, lo);
    let post = a.subrange(hi, hi2);
    let ma = a.subrange(lo, hi);
    let mb = b.subrange(lo, hi);
    assert(a.subrange(lo2, hi2) =~= pre + ma + post);
    assert(b.subrange(lo2, hi2) =~= pre + mb + post);
    lemma_multiset_commutative(pre, ma);
    lemma_multiset_commutative(pre + ma, post);
    lemma_multiset_commutative(pre, mb);
    lemma_multiset_commutative(pre + mb, post);
    if is_order(less) {
        assert forall|x: T| #[trigger] class_of(less, b.subrange(lo2, hi2), x) == class_of(less, a.subrange(lo2, hi2), x) by {
            lemma_class_of_add(less, pre, ma, x);
            lemma_class_of_add(less, pre + ma, post, x);
            lemma_class_of_add(less, pre, mb, x);
            lemma_class_of_add(less, pre + mb, post, x);
        }
    }
}

/// Merging two sorted adjacent runs is a change confined to them that leaves
/// them one sorted run.
pub proof fn lemma_merge_step<T>(less: spec_fn(T, T) -> bool, before: Seq<T>, after: Seq<T>, lo: int, mid: int, hi: int)
    requires
        0 <= lo <= mid <= hi <= before.len(),
        after == spliced(before, lo, hi, merged(less, before.subrange(lo, mid), before.subrange(mid, hi))),
        is_order(less) ==> sorted_by(less, before.subrange(lo, mid)),
        is_order(less) ==> sorted_by(less, before.subrange(mid, hi)),
    ensures
        changed_within(less, before, after, lo, hi),
        is_order(less) ==> sorted_by(less, after.subrange(lo, hi)),
{
    let a = before.subrange(lo, mid);
    let b = before.subrange(mid, hi);
    let m = merged(less, a, b);
    lemma_merged_multiset(less, a, b);
    assert(after.subrange(lo, hi) =~= m);
    assert(before.subrange(lo, hi) =~= a + b);
    lemma_multiset_commutative(a, b);
    if is_order(less) {
        lemma_merged_sorted(less, a, b);
        assert forall|x: T| #[trigger] class_of(less, after.subrange(lo, hi), x) == class_of(less, before.subrange(lo, hi), x) by {
            lemma_merged_classes(less, a, b, x);
            lemma_class_of_add(less, a, b, x);
        }
    }
}

/// `new` is the stable sort of `old`: the same elements, and under an
/// order, sorted with the elements of each class of equal ones in their
/// order of the input.
pub open spec fn stable_sort_of<T>(less: spec_fn(T, T) -> bool, old: Seq<T>, new: Seq<T>) -> bool {
    &&& new.len() == old.len()
    &&& new.to_multiset() == old.to_multiset()
    &&& is_order(less) ==> sorted_by(less, new)
    &&& is_order(less) ==> forall|x: T| #[trigger] class_of(less, new, x) == class_of(less, old, x)
}

pub proof fn lemma_whole_change<T>(less: spec_fn(T, T) -> bool, old: Seq<T>, new: Seq<T>)
    requires
        changed_within(less, old, new, 0, old.len() as int),
        is_order(less) ==> sorted_by(less, new.subrange(0, new.len() as int)),
    ensures
        stable_sort_of(less, old, new),
{
    lemma_changed_within(less, old, new, 0, old.len() as int);
    assert(new.subrange(0, new.len() as int) =~= new);
}

/// Under an order, two sorted sequences with the same classes of equal
/// elements are the same sequence.
pub proof fn lemma_sorted_unique<T>(less: spec_fn(T, T) -> bool, s: Seq<T>, t: Seq<T>)
    requires
        is_order(less),
        sorted_by(less, s),
        sorted_by(less, t),
        forall|x: T| #[trigger] class_of(less, s, x) == class_of(less, t, x),
    ensures
        s == t,
    decreases s.len(),
{
    if s.len() == 0 || t.len() == 0 {
        if s.len() > 0 {
            lemma_class_head(less, s);
            assert(class_of(less, t, s[0]) == class_of(less, s, s[0]));
            assert(t =~= Seq::<T>::empty());
        } else if t.len() > 0 {
            lemma_class_head(less, t);
            assert(class_of(less, s, t[0]) == class_of(less, t, t[0]));
            assert(s =~= Seq::<T>::empty());
        } else {
            assert(s =~= t);
        }
    } else {
        let s0 = s[0];
        let t0 = t[0];
        lemma_class_head(less, s);
        lemma_class_head(less, t);
        if less(t0, s0) {
            assert(class_of(less, s, t0) == class_of(less, t, t0));
            if forall|k: int| 0 <= k < s.len() ==> !equivalent(less, #[trigger] s[k], t0) {
                lemma_class_of_none(less, s, t0);
            }
            let k = choose|k: int| 0 <= k < s.len() && equivalent(less, #[trigger] s[k], t0);
            if k > 0 {
                assert(le(less, s[0], s[k]));
            }
            assert(le(less, s[k], t0));
        }
        if less(s0, t0) {
            assert(class_of(less, t, s0) == class_of(less, s, s0));
            if forall|k: int| 0 <= k < t.len() ==> !equivalent(less, #[trigger] t[k], s0) {
                lemma_class_of_none(less, t, s0);
            }
            let k = choose|k: int| 0 <= k < t.len() && equivalent(less, #[trigger] t[k], s0);
            if k > 0 {
                assert(le(less, t[0], t[k]));
            }
            assert(le(less, t[k], s0));
        }
        assert(equivalent(less, s0, t0));
        assert(class_of(less, s, s0)[0] == s0);
        assert(class_of(less, t, s0) == class_of(less, s, s0));
        assert(class_of(less, t, s0)[0] == t0);
        lemma_sorted_tail(less, s);
        lemma_sorted_tail(less, t);
        assert forall|x: T| #[trigger] class_of(less, s.drop_first(), x) == class_of(less, t.drop_first(), x) by {
            let h: Seq<T> = if equivalent(less, s0, x) { seq![s0] } else { Seq::empty() };
            let cs = class_of(less, s.drop_first(), x);
            let ct = class_of(less, t.drop_first(), x);
            assert(class_of(less, s, x) == h + cs);
            assert(class_of(less, t, x) == h + ct);
            assert(cs =~= (h + cs).subrange(h.len() as int, (h + cs).len() as int));
            assert(ct =~= (h + ct).subrange(h.len() as int, (h + ct).len() as int));
        }
        lemma_sorted_unique(less, s.drop_first(), t.drop_first());
        assert(s =~= seq![s0] + s.drop_first());
        assert(t =~= seq![t0] + t.drop_first());
    }
}

/// The class of the first element of a sequence starts with that element.
proof fn lemma_class_head<T>(less: spec_fn(T, T) -> bool, s: Seq<T>)
    requires
        is_order(less),
        s.len() > 0,
    ensures
        class_of(less, s, s[0]).len() > 0,
        class_of(less, s, s[0])[0] == s[0],
{
    assert(equivalent(less, s[0], s[0]));
}

/// Sorting is idempotent: the stable sort of a sequence that is already
/// sorted is that sequence, so sorting a second time changes nothing.
pub proof fn lemma_sort_sorted_unchanged<T>(less: spec_fn(T, T) -> bool, s: Seq<T>, t: Seq<T>)
    requires
        is_order(less),
        sorted_by(less, s),
        stable_sort_of(less, s, t),
    ensures
        t == s,
{
    lemma_sorted_unique(less, t, s);
}

} // verus!
