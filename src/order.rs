//! The comparator model: a caller-supplied `is_less` closure computes a
//! relation `less` over elements, and orders are stated over that relation.
use vstd::prelude::*;

verus! {

/// `is_less` may be called on any pair of elements.
pub open spec fn callable<T, F: Fn(&T, &T) -> bool>(is_less: F) -> bool {
    forall|a: &T, b: &T| #[trigger] is_less.requires((a, b))
}

/// Every answer of `is_less` is the one that `less` gives: `is_less`
/// computes the relation `less`.
pub open spec fn agrees<T, F: Fn(&T, &T) -> bool>(is_less: F, less: spec_fn(T, T) -> bool) -> bool {
    forall|a: &T, b: &T, r: bool| #[trigger] is_less.ensures((a, b), r) ==> r == less(*a, *b)
}

/// The relation that `is_less` answers `true` to.
pub open spec fn lt_of<T, F: Fn(&T, &T) -> bool>(is_less: F) -> spec_fn(T, T) -> bool {
    |a: T, b: T| is_less.ensures((&a, &b), true)
}

/// `is_less` answers each question the same way every time: it computes
/// the relation that it answers `true` to.
pub open spec fn deterministic<T, F: Fn(&T, &T) -> bool>(is_less: F) -> bool {
    agrees(is_less, lt_of(is_less))
}

/// `a` may stand before `b` in a sorted sequence: `b` is not less than `a`.
pub open spec fn le<T>(less: spec_fn(T, T) -> bool, a: T, b: T) -> bool {
    !less(b, a)
}

/// `less` is a strict weak order: asymmetric, and "not greater than" is
/// transitive.
pub open spec fn strict_weak_order<T>(less: spec_fn(T, T) -> bool) -> bool {
    &&& forall|a: T, b: T| #[trigger] less(a, b) ==> !less(b, a)
    &&& forall|a: T, b: T, c: T|
        #[trigger] le(less, a, b) && #[trigger] le(less, b, c) ==> le(less, a, c)
}

/// `less` orders the elements: it is a strict weak order.
pub open spec fn is_order<T>(less: spec_fn(T, T) -> bool) -> bool {
    strict_weak_order(less)
}

/// Every element of `s` may stand before every later one.
pub open spec fn sorted_by<T>(less: spec_fn(T, T) -> bool, s: Seq<T>) -> bool {
    forall|i: int, j: int| 0 <= i < j < s.len() ==> le(less, #[trigger] s[i], #[trigger] s[j])
}

/// Each element of `s` is strictly less than the one before it.
pub open spec fn strictly_descending<T>(less: spec_fn(T, T) -> bool, s: Seq<T>) -> bool {
    forall|i: int| 0 < i < s.len() ==> less(#[trigger] s[i], s[i - 1])
}

/// No element of `s` is strictly less than the one before it.
pub open spec fn ascending<T>(less: spec_fn(T, T) -> bool, s: Seq<T>) -> bool {
    forall|i: int| 0 < i < s.len() ==> !less(#[trigger] s[i], s[i - 1])
}

/// `a` and `b` compare equal: neither is less than the other.
pub open spec fn equivalent<T>(less: spec_fn(T, T) -> bool, a: T, b: T) -> bool {
    !less(a, b) && !less(b, a)
}

/// The elements of `s` that compare equal to `x`, in the order of `s`.
pub open spec fn class_of<T>(less: spec_fn(T, T) -> bool, s: Seq<T>, x: T) -> Seq<T>
    decreases s.len(),
{
    if s.len() == 0 {
        Seq::empty()
    } else {
        (if equivalent(less, s[0], x) { seq![s[0]] } else { Seq::empty() })
            + class_of(less, s.drop_first(), x)
    }
}

/// Strictly less followed by not greater is strictly less.
pub proof fn lemma_lt_le<T>(less: spec_fn(T, T) -> bool, a: T, b: T, c: T)
    requires
        strict_weak_order(less),
        less(a, b),
        le(less, b, c),
    ensures
        less(a, c),
{
    if !less(a, c) {
        assert(le(less, c, a));
        assert(le(less, b, a));
    }
}

/// Not greater followed by strictly less is strictly less.
pub proof fn lemma_le_lt<T>(less: spec_fn(T, T) -> bool, a: T, b: T, c: T)
    requires
        strict_weak_order(less),
        le(less, a, b),
        less(b, c),
    ensures
        less(a, c),
{
    if !less(a, c) {
        assert(le(less, c, a));
        assert(le(less, c, b));
    }
}

/// The classes of a concatenation are the concatenated classes.
pub proof fn lemma_class_of_add<T>(less: spec_fn(T, T) -> bool, a: Seq<T>, b: Seq<T>, x: T)
    ensures
        class_of(less, a + b, x) == class_of(less, a, x) + class_of(less, b, x),
    decreases a.len(),
{
    if a.len() == 0 {
        assert(a + b =~= b);
        assert(class_of(less, a, x) + class_of(less, b, x) =~= class_of(less, b, x));
    } else {
        assert((a + b).drop_first() =~= a.drop_first() + b);
        lemma_class_of_add(less, a.drop_first(), b, x);
        assert((a + b)[0] == a[0]);
        let h: Seq<T> = if equivalent(less, a[0], x) { seq![a[0]] } else { Seq::empty() };
        assert(h + (class_of(less, a.drop_first(), x) + class_of(less, b, x))
            =~= (h + class_of(less, a.drop_first(), x)) + class_of(less, b, x));
    }
}

/// The class of `x` in a one-element sequence.
pub proof fn lemma_class_of_single<T>(less: spec_fn(T, T) -> bool, a: T, x: T)
    ensures
        class_of(less, seq![a], x) == (if equivalent(less, a, x) { seq![a] } else { Seq::<T>::empty() }),
{
    assert(seq![a].drop_first() =~= Seq::<T>::empty());
    assert(class_of(less, Seq::<T>::empty(), x) == Seq::<T>::empty());
    let h: Seq<T> = if equivalent(less, a, x) { seq![a] } else { Seq::empty() };
    assert(h + Seq::<T>::empty() =~= h);
}

/// A sequence with no element equal to `x` has an empty class of `x`.
pub proof fn lemma_class_of_none<T>(less: spec_fn(T, T) -> bool, s: Seq<T>, x: T)
    requires
        forall|i: int| 0 <= i < s.len() ==> !equivalent(less, #[trigger] s[i], x),
    ensures
        class_of(less, s, x) == Seq::<T>::empty(),
    decreases s.len(),
{
    if s.len() > 0 {
        assert(!equivalent(less, s[0], x));
        assert forall|i: int| 0 <= i < s.drop_first().len() implies !equivalent(less, #[trigger] s.drop_first()[i], x) by {
            assert(s.drop_first()[i] == s[i + 1]);
        }
        lemma_class_of_none(less, s.drop_first(), x);
        assert(Seq::<T>::empty() + Seq::<T>::empty() =~= Seq::<T>::empty());
    }
}


/// Under a strict weak order an ascending sequence is sorted.
pub proof fn lemma_ascending_sorted<T>(less: spec_fn(T, T) -> bool, s: Seq<T>)
    requires
        strict_weak_order(less),
        ascending(less, s),
    ensures
        sorted_by(less, s),
    decreases s.len(),
{
    if s.len() > 1 {
        let t = s.drop_last();
        assert forall|i: int| 0 < i < t.len() implies !less(#[trigger] t[i], t[i - 1]) by {
            assert(t[i] == s[i] && t[i - 1] == s[i - 1]);
        }
        lemma_ascending_sorted(less, t);
        let last = s.len() - 1;
        assert forall|i: int, j: int| 0 <= i < j < s.len() implies le(less, #[trigger] s[i], #[trigger] s[j]) by {
            if j < last {
                assert(t[i] == s[i] && t[j] == s[j]);
            } else {
                assert(le(less, s[last - 1], s[last]));
                if i < last - 1 {
                    assert(t[i] == s[i] && t[last - 1] == s[last - 1]);
                    assert(le(less, s[i], s[last - 1]));
                }
            }
        }
    }
}

/// Under a strict weak order each element of a strictly descending sequence
/// is strictly less than every earlier one.
pub proof fn lemma_descending_strict<T>(less: spec_fn(T, T) -> bool, s: Seq<T>)
    requires
        strict_weak_order(less),
        strictly_descending(less, s),
    ensures
        forall|i: int, j: int| 0 <= i < j < s.len() ==> less(#[trigger] s[j], #[trigger] s[i]),
    decreases s.len(),
{
    if s.len() > 1 {
        let t = s.drop_last();
        assert forall|i: int| 0 < i < t.len() implies less(#[trigger] t[i], t[i - 1]) by {
            assert(t[i] == s[i] && t[i - 1] == s[i - 1]);
        }
        lemma_descending_strict(less, t);
        let last = s.len() - 1;
        assert forall|i: int, j: int| 0 <= i < j < s.len() implies less(#[trigger] s[j], #[trigger] s[i]) by {
            if j < last {
                assert(t[i] == s[i] && t[j] == s[j]);
            } else {
                assert(less(s[last], s[last - 1]));
                if i < last - 1 {
                    assert(t[i] == s[i] && t[last - 1] == s[last - 1]);
                    assert(less(s[last - 1], s[i]));
                    lemma_lt_le(less, s[last], s[last - 1], s[i]);
                }
            }
        }
    }
}

} // verus!
