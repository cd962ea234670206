//! The stable two-way merge of adjacent runs and what it preserves.
use vstd::prelude::*;
use vstd::multiset::Multiset;
use vstd::seq_lib::lemma_multiset_commutative;
use crate::order::{callable, agrees, le, strict_weak_order, sorted_by, equivalent, class_of,
    lemma_lt_le, lemma_le_lt, lemma_class_of_none};

verus! {

/// The stable merge of `a` and `b`: the head of `b` goes first only when it
/// is strictly less than the head of `a`, so that on ties the element of `a`
/// stays in front.
pub open spec fn merged<T>(less: spec_fn(T, T) -> bool, a: Seq<T>, b: Seq<T>) -> Seq<T>
    decreases a.len() + b.len(),
{
    if a.len() == 0 {
        b
    } else if b.len() == 0 {
        a
    } else if less(b[0], a[0]) {
        seq![b[0]] + merged(less, a, b.drop_first())
    } else {
        seq![a[0]] + merged(less, a.drop_first(), b)
    }
}

/// `s` is `old` with the stretch `[lo, hi)` replaced by `mid`.
pub open spec fn spliced<T>(old: Seq<T>, lo: int, hi: int, mid: Seq<T>) -> Seq<T> {
    old.subrange(0, lo) + mid + old.subrange(hi, old.len() as int)
}

/// Merges the adjacent runs `v[lo..mid)` and `v[mid..hi)` in place. The left
/// run is copied to the scratch buffer `buf`, whatever it held before; the
/// right run is read where it stands, ahead of the slot being written.
pub fn merge_runs<T: Copy, F: Fn(&T, &T) -> bool>(
    v: &mut [T],
    lo: usize,
    mid: usize,
    hi: usize,
    buf: &mut Vec<T>,
    is_less: &F,
    Ghost(less): Ghost<spec_fn(T, T) -> bool>,
)
    requires
        lo <= mid <= hi <= old(v)@.len(),
        callable(*is_less),
        agrees(*is_less, less),
    ensures
        final(v)@ == spliced(old(v)@, lo as int, hi as int, merged(less,
            old(v)@.subrange(lo as int, mid as int), old(v)@.subrange(mid as int, hi as int))),
        final(buf)@ == old(v)@.subrange(lo as int, mid as int),
{
    let ghost a = old(v)@.subrange(lo as int, mid as int);
    let ghost b = old(v)@.subrange(mid as int, hi as int);
    let ghost orig = old(v)@;
    buf.clear();
    let mut t: usize = lo;
    while t < mid
        invariant
            lo <= t <= mid <= hi <= v@.len(),
            v@ == orig,
            buf@ == orig.subrange(lo as int, t as int),
        decreases mid - t,
    {
        buf.push(v[t]);
        t += 1;
        assert(buf@ =~= orig.subrange(lo as int, t as int));
    }
    let len_a: usize = mid - lo;
    proof {
        assert(a.subrange(0, a.len() as int) =~= a);
        assert(v@.subrange(mid as int, hi as int) =~= b);
        assert(v@.subrange(lo as int, lo as int) + merged(less, a, b) =~= merged(less, a, b));
    }
    let mut i: usize = 0;
    let mut j: usize = mid;
    let mut k: usize = lo;
    while i < len_a && j < hi
        invariant
            lo <= k <= j <= hi <= v@.len(),
            v@.len() == orig.len(),
            i <= len_a == mid - lo,
            buf@ == a,
            a == orig.subrange(lo as int, mid as int),
            b == orig.subrange(mid as int, hi as int),
            k == lo + i + (j - mid),
            mid <= j,
            callable(*is_less),
            agrees(*is_less, less),
            v@.subrange(j as int, hi as int) == b.subrange(j - mid, b.len() as int),
            v@.subrange(0, lo as int) == orig.subrange(0, lo as int),
            v@.subrange(hi as int, v@.len() as int) == orig.subrange(hi as int, orig.len() as int),
            v@.subrange(lo as int, k as int) + merged(less, a.subrange(i as int, a.len() as int),
                v@.subrange(j as int, hi as int)) == merged(less, a, b),
        decreases len_a - i + hi - j,
    {
        let ghost rest_a = a.subrange(i as int, a.len() as int);
        let ghost rest_b = v@.subrange(j as int, hi as int);
        let ghost done = v@.subrange(lo as int, k as int);
        if is_less(&v[j], &buf[i]) {
            let x = v[j];
            v[k] = x;
            proof {
                assert(rest_b.drop_first() =~= v@.subrange(j + 1, hi as int));
                assert(v@.subrange(lo as int, k + 1) =~= done + seq![x]);
            }
            j += 1;
        } else {
            let x = buf[i];
            v[k] = x;
            proof {
                assert(rest_a.drop_first() =~= a.subrange(i + 1, a.len() as int));
                assert(v@.subrange(lo as int, k + 1) =~= done + seq![x]);
                assert(v@.subrange(j as int, hi as int) =~= rest_b);
            }
            i += 1;
        }
        k += 1;
        proof {
            assert(v@.subrange(0, lo as int) =~= orig.subrange(0, lo as int));
            assert(v@.subrange(hi as int, v@.len() as int) =~= orig.subrange(hi as int, orig.len() as int));
            assert(v@.subrange(j as int, hi as int) =~= b.subrange(j - mid, b.len() as int));
        }
    }
    while i < len_a
        invariant
            lo <= k <= j <= hi <= v@.len(),
            v@.len() == orig.len(),
            i <= len_a == mid - lo,
            buf@ == a,
            a == orig.subrange(lo as int, mid as int),
            b == orig.subrange(mid as int, hi as int),
            k == lo + i + (j - mid),
            j == hi || i == len_a,
            mid <= j,
            v@.subrange(0, lo as int) == orig.subrange(0, lo as int),
            v@.subrange(hi as int, v@.len() as int) == orig.subrange(hi as int, orig.len() as int),
            v@.subrange(lo as int, k as int) + merged(less, a.subrange(i as int, a.len() as int),
                v@.subrange(j as int, hi as int)) == merged(less, a, b),
        decreases len_a - i,
    {
        let ghost done = v@.subrange(lo as int, k as int);
        let x = buf[i];
        v[k] = x;
        proof {
            assert(v@.subrange(lo as int, k + 1) =~= done + seq![x]);
            assert(a.subrange(i as int, a.len() as int) =~= seq![x] + a.subrange(i + 1, a.len() as int));
            assert(v@.subrange(0, lo as int) =~= orig.subrange(0, lo as int));
            assert(v@.subrange(hi as int, v@.len() as int) =~= orig.subrange(hi as int, orig.len() as int));
            assert(v@.subrange(j as int, hi as int) =~= Seq::<T>::empty());
        }
        i += 1;
        k += 1;
    }
    proof {
        assert(a.subrange(i as int, a.len() as int) =~= Seq::<T>::empty());
        assert(v@.subrange(lo as int, hi as int) =~= v@.subrange(lo as int, k as int) + v@.subrange(j as int, hi as int));
        assert(v@ =~= spliced(orig, lo as int, hi as int, merged(less, a, b)));
    }
}


/// The merge holds exactly the elements of both runs.
pub proof fn lemma_merged_multiset<T>(less: spec_fn(T, T) -> bool, a: Seq<T>, b: Seq<T>)
    ensures
        merged(less, a, b).len() == a.len() + b.len(),
        merged(less, a, b).to_multiset() == a.to_multiset().add(b.to_multiset()),
    decreases a.len() + b.len(),
{
    broadcast use vstd::seq_lib::group_to_multiset_ensures, vstd::multiset::group_multiset_axioms;
    if a.len() == 0 {
        assert(a =~= Seq::<T>::empty());
        assert(a.to_multiset() =~= Multiset::<T>::empty());
        assert(b.to_multiset() =~= a.to_multiset().add(b.to_multiset()));
    } else if b.len() == 0 {
        assert(b =~= Seq::<T>::empty());
        assert(b.to_multiset() =~= Multiset::<T>::empty());
        assert(a.to_multiset() =~= a.to_multiset().add(b.to_multiset()));
    } else if less(b[0], a[0]) {
        lemma_merged_multiset(less, a, b.drop_first());
        let m = merged(less, a, b.drop_first());
        lemma_multiset_commutative(seq![b[0]], m);
        lemma_multiset_commutative(seq![b[0]], b.drop_first());
        assert(seq![b[0]] + b.drop_first() =~= b);
        assert(merged(less, a, b).to_multiset() =~= a.to_multiset().add(b.to_multiset()));
    } else {
        lemma_merged_multiset(less, a.drop_first(), b);
        let m = merged(less, a.drop_first(), b);
        lemma_multiset_commutative(seq![a[0]], m);
        lemma_multiset_commutative(seq![a[0]], a.drop_first());
        assert(seq![a[0]] + a.drop_first() =~= a);
        assert(merged(less, a, b).to_multiset() =~= a.to_multiset().add(b.to_multiset()));
    }
}

/// A lower bound of both runs bounds their merge.
pub proof fn lemma_merged_bound<T>(less: spec_fn(T, T) -> bool, x: T, a: Seq<T>, b: Seq<T>)
    requires
        forall|i: int| 0 <= i < a.len() ==> le(less, x, #[trigger] a[i]),
        forall|i: int| 0 <= i < b.len() ==> le(less, x, #[trigger] b[i]),
    ensures
        forall|k: int| 0 <= k < merged(less, a, b).len() ==> le(less, x, #[trigger] merged(less, a, b)[k]),
    decreases a.len() + b.len(),
{
    lemma_merged_multiset(less, a, b);
    if a.len() == 0 || b.len() == 0 {
    } else if less(b[0], a[0]) {
        assert forall|i: int| 0 <= i < b.drop_first().len() implies le(less, x, #[trigger] b.drop_first()[i]) by {
            assert(b.drop_first()[i] == b[i + 1]);
        }
        lemma_merged_bound(less, x, a, b.drop_first());
        let m = merged(less, a, b.drop_first());
        assert forall|k: int| 0 <= k < merged(less, a, b).len() implies le(less, x, #[trigger] merged(less, a, b)[k]) by {
            if k > 0 {
                assert(merged(less, a, b)[k] == m[k - 1]);
            }
        }
    } else {
        assert forall|i: int| 0 <= i < a.drop_first().len() implies le(less, x, #[trigger] a.drop_first()[i]) by {
            assert(a.drop_first()[i] == a[i + 1]);
        }
        lemma_merged_bound(less, x, a.drop_first(), b);
        let m = merged(less, a.drop_first(), b);
        assert forall|k: int| 0 <= k < merged(less, a, b).len() implies le(less, x, #[trigger] merged(less, a, b)[k]) by {
            if k > 0 {
                assert(merged(less, a, b)[k] == m[k - 1]);
            }
        }
    }
}

/// The tail of a sorted sequence is sorted and bounded below by its head.
pub proof fn lemma_sorted_tail<T>(less: spec_fn(T, T) -> bool, s: Seq<T>)
    requires
        s.len() > 0,
        sorted_by(less, s),
    ensures
        sorted_by(less, s.drop_first()),
        forall|i: int| 0 <= i < s.drop_first().len() ==> le(less, s[0], #[trigger] s.drop_first()[i]),
{
    let t = s.drop_first();
    assert forall|i: int, j: int| 0 <= i < j < t.len() implies le(less, #[trigger] t[i], #[trigger] t[j]) by {
        assert(t[i] == s[i + 1] && t[j] == s[j + 1]);
    }
    assert forall|i: int| 0 <= i < t.len() implies le(less, s[0], #[trigger] t[i]) by {
        assert(t[i] == s[i + 1]);
    }
}

/// A lower bound of a sorted sequence can stand in front of it.
proof fn lemma_sorted_cons<T>(less: spec_fn(T, T) -> bool, x: T, s: Seq<T>)
    requires
        sorted_by(less, s),
        forall|i: int| 0 <= i < s.len() ==> le(less, x, #[trigger] s[i]),
    ensures
        sorted_by(less, seq![x] + s),
{
    let t = seq![x] + s;
    assert forall|i: int, j: int| 0 <= i < j < t.len() implies le(less, #[trigger] t[i], #[trigger] t[j]) by {
        assert(t[j] == s[j - 1]);
        if i > 0 {
            assert(t[i] == s[i - 1]);
        }
    }
}

/// The merge of two sorted runs is sorted.
pub proof fn lemma_merged_sorted<T>(less: spec_fn(T, T) -> bool, a: Seq<T>, b: Seq<T>)
    requires
        strict_weak_order(less),
        sorted_by(less, a),
        sorted_by(less, b),
    ensures
        sorted_by(less, merged(less, a, b)),
    decreases a.len() + b.len(),
{
    if a.len() == 0 || b.len() == 0 {
    } else if less(b[0], a[0]) {
        lemma_sorted_tail(less, b);
        lemma_merged_sorted(less, a, b.drop_first());
        assert forall|i: int| 0 <= i < a.len() implies le(less, b[0], #[trigger] a[i]) by {
            if i > 0 {
                assert(le(less, a[0], a[i]));
                lemma_lt_le(less, b[0], a[0], a[i]);
            }
        }
        lemma_merged_bound(less, b[0], a, b.drop_first());
        lemma_sorted_cons(less, b[0], merged(less, a, b.drop_first()));
    } else {
        lemma_sorted_tail(less, a);
        lemma_merged_sorted(less, a.drop_first(), b);
        assert forall|i: int| 0 <= i < b.len() implies le(less, a[0], #[trigger] b[i]) by {
            if i > 0 {
                assert(le(less, b[0], b[i]));
                assert(le(less, a[0], b[0]));
            }
        }
        lemma_merged_bound(less, a[0], a.drop_first(), b);
        lemma_sorted_cons(less, a[0], merged(less, a.drop_first(), b));
    }
}

/// Merging sorted runs keeps, for every class of equal elements, those of the
/// left run in front of those of the right run, each in its own order.
pub proof fn lemma_merged_classes<T>(less: spec_fn(T, T) -> bool, a: Seq<T>, b: Seq<T>, x: T)
    requires
        strict_weak_order(less),
        sorted_by(less, a),
        sorted_by(less, b),
    ensures
        class_of(less, merged(less, a, b), x) == class_of(less, a, x) + class_of(less, b, x),
    decreases a.len() + b.len(),
{
    if a.len() == 0 {
        assert(class_of(less, a, x) + class_of(less, b, x) =~= class_of(less, b, x));
    } else if b.len() == 0 {
        assert(class_of(less, a, x) + class_of(less, b, x) =~= class_of(less, a, x));
    } else if less(b[0], a[0]) {
        lemma_sorted_tail(less, b);
        lemma_merged_classes(less, a, b.drop_first(), x);
        let m = merged(less, a, b.drop_first());
        assert((seq![b[0]] + m).drop_first() =~= m);
        assert(b[0] == (seq![b[0]] + m)[0]);
        if equivalent(less, b[0], x) {
            assert forall|i: int| 0 <= i < a.len() implies !equivalent(less, #[trigger] a[i], x) by {
                if i > 0 {
                    assert(le(less, a[0], a[i]));
                }
                lemma_lt_le(less, b[0], a[0], a[i]);
                lemma_le_lt(less, x, b[0], a[i]);
            }
            lemma_class_of_none(less, a, x);
            assert(class_of(less, a, x) + class_of(less, b, x) =~= class_of(less, b, x));
            assert(class_of(less, a, x) + class_of(less, b.drop_first(), x) =~= class_of(less, b.drop_first(), x));
        } else {
            assert(class_of(less, b, x) == class_of(less, b.drop_first(), x));
            assert(class_of(less, seq![b[0]] + m, x) =~= class_of(less, m, x));
        }
    } else {
        lemma_sorted_tail(less, a);
        lemma_merged_classes(less, a.drop_first(), b, x);
        let m = merged(less, a.drop_first(), b);
        assert((seq![a[0]] + m).drop_first() =~= m);
        assert(a[0] == (seq![a[0]] + m)[0]);
        let h: Seq<T> = if equivalent(less, a[0], x) { seq![a[0]] } else { Seq::empty() };
        assert(h + (class_of(less, a.drop_first(), x) + class_of(less, b, x))
            =~= (h + class_of(less, a.drop_first(), x)) + class_of(less, b, x));
    }
}


/// Merging two sorted runs gives one sorted run that holds exactly their
/// elements, and keeps every element of the left run ahead of each equal
/// element of the right run, each run's equal elements in their own order.
pub proof fn lemma_merge_sorted_runs<T>(less: spec_fn(T, T) -> bool, a: Seq<T>, b: Seq<T>)
    requires
        strict_weak_order(less),
        sorted_by(less, a),
        sorted_by(less, b),
    ensures
        merged(less, a, b).len() == a.len() + b.len(),
        merged(less, a, b).to_multiset() == a.to_multiset().add(b.to_multiset()),
        sorted_by(less, merged(less, a, b)),
        forall|x: T| #[trigger] class_of(less, merged(less, a, b), x)
            == class_of(less, a, x) + class_of(less, b, x),
{
    lemma_merged_multiset(less, a, b);
    lemma_merged_sorted(less, a, b);
    assert forall|x: T| #[trigger] class_of(less, merged(less, a, b), x)
        == class_of(less, a, x) + class_of(less, b, x) by {
        lemma_merged_classes(less, a, b, x);
    }
}

} // verus!
