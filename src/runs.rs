//! Normalising a run: reversing a strictly decreasing run in place, and
//! growing a short run by stable insertion.
use vstd::prelude::*;
use vstd::seq_lib::lemma_multiset_commutative;
use crate::order::{callable, agrees, le, strict_weak_order, sorted_by, strictly_descending,
    equivalent, class_of, lemma_lt_le, lemma_class_of_add, lemma_class_of_none, lemma_class_of_single, lemma_descending_strict};
use crate::merging::spliced;

verus! {

/// Replacing a stretch by one with the same elements keeps the elements of
/// the whole sequence.
pub proof fn lemma_splice_multiset<T>(old: Seq<T>, lo: int, hi: int, mid: Seq<T>)
    requires
        0 <= lo <= hi <= old.len(),
        mid.to_multiset() == old.subrange(lo, hi).to_multiset(),
    ensures
        spliced(old, lo, hi, mid).to_multiset() == old.to_multiset(),
{
    let pre = old.subrange(0, lo);
    let post = old.subrange(hi, old.len() as int);
    assert(old =~= pre + old.subrange(lo, hi) + post);
    lemma_multiset_commutative(pre, mid);
    lemma_multiset_commutative(pre + mid, post);
    lemma_multiset_commutative(pre, old.subrange(lo, hi));
    lemma_multiset_commutative(pre + old.subrange(lo, hi), post);
}

/// Replacing a stretch by one with the same classes of equal elements keeps
/// the classes of the whole sequence.
pub proof fn lemma_splice_classes<T>(less: spec_fn(T, T) -> bool, old: Seq<T>, lo: int, hi: int, mid: Seq<T>, x: T)
    requires
        0 <= lo <= hi <= old.len(),
        class_of(less, mid, x) == class_of(less, old.subrange(lo, hi), x),
    ensures
        class_of(less, spliced(old, lo, hi, mid), x) == class_of(less, old, x),
{
    let pre = old.subrange(0, lo);
    let post = old.subrange(hi, old.len() as int);
    assert(old =~= pre + old.subrange(lo, hi) + post);
    lemma_class_of_add(less, pre, mid, x);
    lemma_class_of_add(less, pre + mid, post, x);
    lemma_class_of_add(less, pre, old.subrange(lo, hi), x);
    lemma_class_of_add(less, pre + old.subrange(lo, hi), post, x);
}

/// Reverses `v[lo..hi)` in place.
pub fn reverse_range<T: Copy>(v: &mut [T], lo: usize, hi: usize)
    requires
        lo <= hi <= old(v)@.len(),
    ensures
        final(v)@ == spliced(old(v)@, lo as int, hi as int, old(v)@.subrange(lo as int, hi as int).reverse()),
{
    let ghost orig = old(v)@;
    let mut i: usize = lo;
    let mut j: usize = hi;
    while j - i > 1
        invariant
            lo <= i <= j <= hi <= v@.len(),
            v@.len() == orig.len(),
            i - lo == hi - j,
            forall|k: int| 0 <= k < lo || hi <= k < v@.len() || i <= k < j ==> #[trigger] v@[k] == orig[k],
            forall|k: int| lo <= k < i || j <= k < hi ==> #[trigger] v@[k] == orig[lo + hi - 1 - k],
        decreases j - i,
    {
        let x = v[i];
        let y = v[j - 1];
        v[i] = y;
        v[j - 1] = x;
        i += 1;
        j -= 1;
    }
    proof {
        let r = orig.subrange(lo as int, hi as int).reverse();
        assert(v@ =~= spliced(orig, lo as int, hi as int, r)) by {
            assert forall|k: int| lo <= k < hi implies v@[k] == #[trigger] r[k - lo] by {
                if i <= k < j {
                    assert(k == lo + hi - 1 - k);
                }
            }
        }
    }
}

/// Reversing a strictly decreasing run yields a sorted run with the same
/// elements and the same classes of equal elements.
pub proof fn lemma_reverse_descending<T>(less: spec_fn(T, T) -> bool, s: Seq<T>)
    requires
        strict_weak_order(less),
        strictly_descending(less, s),
    ensures
        sorted_by(less, s.reverse()),
        forall|x: T| #[trigger] class_of(less, s.reverse(), x) == class_of(less, s, x),
{
    lemma_descending_strict(less, s);
    let r = s.reverse();
    assert forall|i: int, j: int| 0 <= i < j < r.len() implies le(less, #[trigger] r[i], #[trigger] r[j]) by {
        assert(less(s[s.len() - 1 - i], s[s.len() - 1 - j]));
    }
    assert forall|x: T| #[trigger] class_of(less, s.reverse(), x) == class_of(less, s, x) by {
        lemma_reverse_classes(less, s, x);
    }
}

proof fn lemma_reverse_classes<T>(less: spec_fn(T, T) -> bool, s: Seq<T>, x: T)
    requires
        strict_weak_order(less),
        forall|i: int, j: int| 0 <= i < j < s.len() ==> less(#[trigger] s[j], #[trigger] s[i]),
    ensures
        class_of(less, s.reverse(), x) == class_of(less, s, x),
    decreases s.len(),
{
    if s.len() == 0 {
        assert(s.reverse() =~= s);
    } else {
        let t = s.drop_first();
        assert forall|i: int, j: int| 0 <= i < j < t.len() implies less(#[trigger] t[j], #[trigger] t[i]) by {
            assert(t[i] == s[i + 1] && t[j] == s[j + 1]);
        }
        lemma_reverse_classes(less, t, x);
        assert(s.reverse() =~= t.reverse() + seq![s[0]]);
        assert(s =~= seq![s[0]] + t);
        lemma_class_of_add(less, t.reverse(), seq![s[0]], x);
        lemma_class_of_add(less, seq![s[0]], t, x);
        lemma_class_of_single(less, s[0], x);
        let h = class_of(less, seq![s[0]], x);
        if equivalent(less, s[0], x) {
            assert forall|i: int| 0 <= i < t.len() implies !equivalent(less, #[trigger] t[i], x) by {
                assert(t[i] == s[i + 1]);
                assert(less(s[i + 1], s[0]));
                lemma_lt_le(less, t[i], s[0], x);
            }
            lemma_class_of_none(less, t, x);
            assert(Seq::<T>::empty() + h =~= h + Seq::<T>::empty());
        } else {
            assert(class_of(less, t, x) + Seq::<T>::empty() =~= Seq::<T>::empty() + class_of(less, t, x));
        }
    }
}

/// Where `x` goes when it is inserted into `s` from the right: past every
/// trailing element that is strictly greater than it, and no further.
pub open spec fn insert_pos<T>(less: spec_fn(T, T) -> bool, s: Seq<T>, x: T) -> int
    decreases s.len(),
{
    if s.len() == 0 {
        0
    } else if less(x, s.last()) {
        insert_pos(less, s.drop_last(), x)
    } else {
        s.len() as int
    }
}

/// `s` with `x` inserted at its insertion position.
pub open spec fn inserted<T>(less: spec_fn(T, T) -> bool, s: Seq<T>, x: T) -> Seq<T> {
    let p = insert_pos(less, s, x);
    s.subrange(0, p) + seq![x] + s.subrange(p, s.len() as int)
}

/// Everything after the insertion position is strictly greater than `x`,
/// and the element just before it, if any, is not.
pub proof fn lemma_insert_pos<T>(less: spec_fn(T, T) -> bool, s: Seq<T>, x: T)
    ensures
        0 <= insert_pos(less, s, x) <= s.len(),
        forall|k: int| insert_pos(less, s, x) <= k < s.len() ==> less(x, #[trigger] s[k]),
        insert_pos(less, s, x) > 0 ==> !less(x, s[insert_pos(less, s, x) - 1]),
    decreases s.len(),
{
    if s.len() > 0 && less(x, s.last()) {
        lemma_insert_pos(less, s.drop_last(), x);
        let p = insert_pos(less, s, x);
        assert forall|k: int| p <= k < s.len() implies less(x, #[trigger] s[k]) by {
            if k < s.len() - 1 {
                assert(s.drop_last()[k] == s[k]);
            }
        }
        if p > 0 {
            assert(s.drop_last()[p - 1] == s[p - 1]);
        }
    }
}

/// Inserting keeps the elements and the classes of `s.push(x)`, and keeps a
/// sorted `s` sorted.
pub proof fn lemma_inserted<T>(less: spec_fn(T, T) -> bool, s: Seq<T>, x: T)
    ensures
        inserted(less, s, x).len() == s.len() + 1,
        inserted(less, s, x).to_multiset() == s.push(x).to_multiset(),
        strict_weak_order(less) ==> forall|y: T| #[trigger] class_of(less, inserted(less, s, x), y)
            == class_of(less, s.push(x), y),
        strict_weak_order(less) && sorted_by(less, s) ==> sorted_by(less, inserted(less, s, x)),
{
    lemma_insert_pos(less, s, x);
    let p = insert_pos(less, s, x);
    let pre = s.subrange(0, p);
    let post = s.subrange(p, s.len() as int);
    let r = inserted(less, s, x);
    assert(r.len() == s.len() + 1);
    assert(forall|k: int| 0 <= k < p ==> #[trigger] r[k] == s[k]);
    assert(r[p] == x);
    assert(forall|k: int| p < k < r.len() ==> #[trigger] r[k] == s[k - 1]);
    assert(s.push(x) =~= pre + post + seq![x]);
    lemma_multiset_commutative(pre + seq![x], post);
    lemma_multiset_commutative(pre, seq![x]);
    lemma_multiset_commutative(pre + post, seq![x]);
    lemma_multiset_commutative(pre, post);
    assert(r.to_multiset() =~= s.push(x).to_multiset());
    if strict_weak_order(less) {
        assert forall|y: T| #[trigger] class_of(less, inserted(less, s, x), y) == class_of(less, s.push(x), y) by {
            lemma_class_of_add(less, pre + seq![x], post, y);
            lemma_class_of_add(less, pre, seq![x], y);
            lemma_class_of_add(less, pre + post, seq![x], y);
            lemma_class_of_add(less, pre, post, y);
            lemma_class_of_single(less, x, y);
            if equivalent(less, x, y) {
                assert forall|i: int| 0 <= i < post.len() implies !equivalent(less, #[trigger] post[i], y) by {
                    assert(post[i] == s[p + i]);
                    assert(less(x, s[p + i]));
                    assert(le(less, y, x));
                    crate::order::lemma_le_lt(less, y, x, s[p + i]);
                }
                lemma_class_of_none(less, post, y);
                let cp = class_of(less, pre, y);
                let cx = class_of(less, seq![x], y);
                assert(cp + cx + Seq::<T>::empty() =~= cp + Seq::<T>::empty() + cx);
            } else {
                let cp = class_of(less, pre, y);
                let cq = class_of(less, post, y);
                assert(cp + Seq::<T>::empty() + cq =~= cp + cq + Seq::<T>::empty());
            }
        }
        if sorted_by(less, s) {
            assert forall|i: int, j: int| 0 <= i < j < r.len() implies le(less, #[trigger] r[i], #[trigger] r[j]) by {
                if j < p {
                    assert(r[i] == s[i] && r[j] == s[j]);
                    assert(le(less, s[i], s[j]));
                } else if j == p {
                    assert(r[i] == s[i] && r[j] == x);
                    assert(!less(x, s[p - 1]));
                    assert(le(less, s[p - 1], x));
                    if i < p - 1 {
                        assert(le(less, s[i], s[p - 1]));
                    }
                    assert(le(less, s[i], x));
                } else if i < p {
                    assert(r[i] == s[i] && r[j] == s[j - 1]);
                    assert(le(less, s[i], s[j - 1]));
                } else if i == p {
                    assert(r[i] == x && r[j] == s[j - 1]);
                    assert(less(x, s[j - 1]));
                    assert(le(less, x, s[j - 1]));
                } else {
                    assert(r[i] == s[i - 1] && r[j] == s[j - 1]);
                    assert(le(less, s[i - 1], s[j - 1]));
                }
            }
        }
    }
}

/// Inserts `v[hi - 1]` into `v[lo..hi - 1)`, scanning from the right and
/// shifting each strictly greater element one slot up.
pub fn insert_last<T: Copy, F: Fn(&T, &T) -> bool>(v: &mut [T], lo: usize, hi: usize, is_less: &F,
    Ghost(less): Ghost<spec_fn(T, T) -> bool>)
    requires
        lo < hi <= old(v)@.len(),
        callable(*is_less),
        agrees(*is_less, less),
    ensures
        final(v)@ == spliced(old(v)@, lo as int, hi as int, inserted(less,
            old(v)@.subrange(lo as int, hi - 1), old(v)@[hi - 1])),
{
    let ghost orig = old(v)@;
    let ghost s = orig.subrange(lo as int, hi - 1);
    let x = v[hi - 1];
    let mut j: usize = hi - 1;
    proof {
        assert(s.subrange(0, s.len() as int) =~= s);
    }
    while j > lo && is_less(&x, &v[j - 1])
        invariant
            lo <= j < hi <= v@.len(),
            v@.len() == orig.len(),
            s == orig.subrange(lo as int, hi - 1),
            x == orig[hi - 1],
            callable(*is_less),
            agrees(*is_less, less),
            forall|k: int| 0 <= k < j || hi <= k < v@.len() ==> #[trigger] v@[k] == orig[k],
            forall|k: int| j < k < hi ==> #[trigger] v@[k] == orig[k - 1],
            insert_pos(less, s, x) == insert_pos(less, s.subrange(0, j - lo), x),
            forall|k: int| j - lo <= k < s.len() ==> less(x, #[trigger] s[k]),
        decreases j,
    {
        let y = v[j - 1];
        v[j] = y;
        proof {
            assert(s.subrange(0, j - lo).drop_last() =~= s.subrange(0, j - 1 - lo));
            assert(s[j - 1 - lo] == orig[j - 1]);
        }
        j -= 1;
    }
    v[j] = x;
    proof {
        let p = insert_pos(less, s, x);
        assert(p == j - lo);
        let r = inserted(less, s, x);
        assert(v@ =~= spliced(orig, lo as int, hi as int, r)) by {
            assert forall|k: int| lo <= k < hi implies v@[k] == #[trigger] r[k - lo] by {
                if k < j {
                    assert(r[k - lo] == s[k - lo]);
                } else if k > j {
                    assert(r[k - lo] == s[k - lo - 1]);
                }
            }
        }
    }
}


/// Where `x` goes when it is inserted into `s` from the left: past every
/// leading element that is strictly less than it, and no further.
pub open spec fn insert_pos_left<T>(less: spec_fn(T, T) -> bool, s: Seq<T>, x: T) -> int
    decreases s.len(),
{
    if s.len() == 0 {
        0
    } else if less(s[0], x) {
        1 + insert_pos_left(less, s.drop_first(), x)
    } else {
        0
    }
}

/// `s` with `x` inserted at its position from the left.
pub open spec fn inserted_left<T>(less: spec_fn(T, T) -> bool, x: T, s: Seq<T>) -> Seq<T> {
    let p = insert_pos_left(less, s, x);
    s.subrange(0, p) + seq![x] + s.subrange(p, s.len() as int)
}

/// Everything before the position from the left is strictly less than
/// `x`, and the element at it, if any, is not.
pub proof fn lemma_insert_pos_left<T>(less: spec_fn(T, T) -> bool, s: Seq<T>, x: T)
    ensures
        0 <= insert_pos_left(less, s, x) <= s.len(),
        forall|k: int| 0 <= k < insert_pos_left(less, s, x) ==> less(#[trigger] s[k], x),
        insert_pos_left(less, s, x) < s.len() ==> !less(s[insert_pos_left(less, s, x)], x),
    decreases s.len(),
{
    if s.len() > 0 && less(s[0], x) {
        let t = s.drop_first();
        lemma_insert_pos_left(less, t, x);
        let p = insert_pos_left(less, s, x);
        assert forall|k: int| 0 <= k < p implies less(#[trigger] s[k], x) by {
            if k > 0 {
                assert(t[k - 1] == s[k]);
            }
        }
        if p < s.len() {
            assert(t[p - 1] == s[p]);
        }
    }
}

/// Inserting from the left keeps the elements and the classes of
/// `[x] + s`, and keeps a sorted `s` sorted.
pub proof fn lemma_inserted_left<T>(less: spec_fn(T, T) -> bool, x: T, s: Seq<T>)
    ensures
        inserted_left(less, x, s).len() == s.len() + 1,
        inserted_left(less, x, s).to_multiset() == (seq![x] + s).to_multiset(),
        strict_weak_order(less) ==> forall|y: T| #[trigger] class_of(less, inserted_left(less, x, s), y)
            == class_of(less, seq![x] + s, y),
        strict_weak_order(less) && sorted_by(less, s) ==> sorted_by(less, inserted_left(less, x, s)),
{
    lemma_insert_pos_left(less, s, x);
    let p = insert_pos_left(less, s, x);
    let pre = s.subrange(0, p);
    let post = s.subrange(p, s.len() as int);
    let r = inserted_left(less, x, s);
    assert(r.len() == s.len() + 1);
    assert(forall|k: int| 0 <= k < p ==> #[trigger] r[k] == s[k]);
    assert(r[p] == x);
    assert(forall|k: int| p < k < r.len() ==> #[trigger] r[k] == s[k - 1]);
    assert(seq![x] + s =~= seq![x] + pre + post);
    lemma_multiset_commutative(pre + seq![x], post);
    lemma_multiset_commutative(pre, seq![x]);
    lemma_multiset_commutative(seq![x] + pre, post);
    lemma_multiset_commutative(seq![x], pre);
    assert(r.to_multiset() =~= (seq![x] + s).to_multiset());
    if strict_weak_order(less) {
        assert forall|y: T| #[trigger] class_of(less, inserted_left(less, x, s), y) == class_of(less, seq![x] + s, y) by {
            lemma_class_of_add(less, pre + seq![x], post, y);
            lemma_class_of_add(less, pre, seq![x], y);
            lemma_class_of_add(less, seq![x] + pre, post, y);
            lemma_class_of_add(less, seq![x], pre, y);
            lemma_class_of_single(less, x, y);
            if equivalent(less, x, y) {
                assert forall|i: int| 0 <= i < pre.len() implies !equivalent(less, #[trigger] pre[i], y) by {
                    assert(pre[i] == s[i]);
                    assert(less(s[i], x));
                    assert(le(less, x, y));
                    lemma_lt_le(less, s[i], x, y);
                }
                lemma_class_of_none(less, pre, y);
                let cx = class_of(less, seq![x], y);
                let cq = class_of(less, post, y);
                assert(Seq::<T>::empty() + cx + cq =~= cx + Seq::<T>::empty() + cq);
            } else {
                let cp = class_of(less, pre, y);
                let cq = class_of(less, post, y);
                assert(cp + Seq::<T>::empty() + cq =~= Seq::<T>::empty() + cp + cq);
            }
        }
        if sorted_by(less, s) {
            assert forall|i: int, j: int| 0 <= i < j < r.len() implies le(less, #[trigger] r[i], #[trigger] r[j]) by {
                if j < p {
                    assert(le(less, s[i], s[j]));
                } else if j == p {
                    assert(less(s[i], x));
                    assert(le(less, s[i], x));
                } else if i < p {
                    assert(le(less, s[i], s[j - 1]));
                } else if i == p {
                    assert(!less(s[p], x));
                    assert(le(less, x, s[p]));
                    if j - 1 > p {
                        assert(le(less, s[p], s[j - 1]));
                    }
                    assert(le(less, x, s[j - 1]));
                } else {
                    assert(le(less, s[i - 1], s[j - 1]));
                }
            }
        }
    }
}

/// Inserts `v[lo]` into `v[lo + 1..hi)`, scanning from the left and
/// shifting each strictly smaller element one slot down.
pub fn insert_first<T: Copy, F: Fn(&T, &T) -> bool>(v: &mut [T], lo: usize, hi: usize, is_less: &F,
    Ghost(less): Ghost<spec_fn(T, T) -> bool>)
    requires
        lo < hi <= old(v)@.len(),
        callable(*is_less),
        agrees(*is_less, less),
    ensures
        final(v)@ == spliced(old(v)@, lo as int, hi as int, inserted_left(less,
            old(v)@[lo as int], old(v)@.subrange(lo + 1, hi as int))),
{
    let ghost orig = old(v)@;
    let ghost s = orig.subrange(lo + 1, hi as int);
    let x = v[lo];
    let mut j: usize = lo;
    proof {
        assert(s.subrange(0, s.len() as int) =~= s);
    }
    while j + 1 < hi && is_less(&v[j + 1], &x)
        invariant
            lo <= j < hi <= v@.len(),
            v@.len() == orig.len(),
            s == orig.subrange(lo + 1, hi as int),
            x == orig[lo as int],
            callable(*is_less),
            agrees(*is_less, less),
            forall|k: int| 0 <= k < lo || j < k < v@.len() ==> #[trigger] v@[k] == orig[k],
            forall|k: int| lo <= k < j ==> #[trigger] v@[k] == orig[k + 1],
            insert_pos_left(less, s, x) == (j - lo) + insert_pos_left(less, s.subrange(j - lo, s.len() as int), x),
        decreases hi - j,
    {
        let y = v[j + 1];
        v[j] = y;
        proof {
            assert(s.subrange(j - lo, s.len() as int).drop_first() =~= s.subrange(j + 1 - lo, s.len() as int));
            assert(s[j - lo] == orig[j + 1]);
        }
        j += 1;
    }
    v[j] = x;
    proof {
        let p = insert_pos_left(less, s, x);
        assert(p == j - lo);
        let r = inserted_left(less, x, s);
        lemma_insert_pos_left(less, s, x);
        assert(v@ =~= spliced(orig, lo as int, hi as int, r)) by {
            assert forall|k: int| lo <= k < hi implies v@[k] == #[trigger] r[k - lo] by {
                if k < j {
                    assert(r[k - lo] == s[k - lo]);
                } else if k > j {
                    assert(r[k - lo] == s[k - lo - 1]);
                }
            }
        }
    }
}

} // verus!
