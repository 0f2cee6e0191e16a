//! Ordered sequences: what it means for a sequence to be in order, and where
//! an element belongs in one.

use crate::order::{
    equiv, is_total_order, le, lemma_equiv_symmetric, lemma_equiv_then_lt, lemma_equiv_transitive,
    lemma_lt_then_equiv, lemma_lt_transitive, lemma_trichotomy, lt,
};
use vstd::prelude::*;

verus! {

/// No element of `s` comes after a later one.
pub open spec fn sorted<T: Ord>(s: Seq<T>) -> bool {
    forall|i: int, j: int| 0 <= i < j < s.len() ==> le(#[trigger] s[i], #[trigger] s[j])
}

/// Every element of `s` comes strictly before each later one, so no two take
/// the same place.
pub open spec fn strictly_sorted<T: Ord>(s: Seq<T>) -> bool {
    forall|i: int, j: int| 0 <= i < j < s.len() ==> lt(#[trigger] s[i], #[trigger] s[j])
}

/// Some element of `s` takes the place of `e`.
pub open spec fn occurs<T: Ord>(s: Seq<T>, e: T) -> bool {
    exists|i: int| 0 <= i < s.len() && equiv(#[trigger] s[i], e)
}

/// The number of elements of `s` that come strictly before `e`. In an ordered
/// sequence these are its first elements, so this is the index at which `e`
/// belongs.
pub open spec fn lower_bound<T: Ord>(s: Seq<T>, e: T) -> nat
    decreases s.len(),
{
    if s.len() == 0 {
        0
    } else {
        lower_bound(s.drop_last(), e) + if lt(s.last(), e) {
            1nat
        } else {
            0nat
        }
    }
}

/// A strictly ordered sequence is ordered.
pub proof fn lemma_strictly_sorted_is_sorted<T: Ord>(s: Seq<T>)
    requires
        strictly_sorted(s),
    ensures
        sorted(s),
{
}

/// `k` splits `s` into the elements before `e` and the others.
pub open spec fn splits_at<T: Ord>(s: Seq<T>, e: T, k: int) -> bool {
    &&& 0 <= k <= s.len()
    &&& forall|i: int| 0 <= i < k ==> lt(#[trigger] s[i], e)
    &&& forall|i: int| k <= i < s.len() ==> !lt(#[trigger] s[i], e)
}

/// An index that splits `s` at `e` is the lower bound of `e`.
pub proof fn lemma_split_is_lower_bound<T: Ord>(s: Seq<T>, e: T, k: int)
    requires
        splits_at(s, e, k),
    ensures
        lower_bound(s, e) == k,
    decreases s.len(),
{
    if s.len() > 0 {
        let t = s.drop_last();
        assert(forall|i: int| 0 <= i < t.len() ==> t[i] == s[i]);
        if lt(s.last(), e) {
            assert(k == s.len()) by {
                if k < s.len() {
                    assert(!lt(s[s.len() - 1], e));
                }
            }
            assert(splits_at(t, e, k - 1));
            lemma_split_is_lower_bound(t, e, k - 1);
        } else {
            assert(k < s.len()) by {
                if k == s.len() {
                    assert(lt(s[s.len() - 1], e));
                }
            }
            assert(splits_at(t, e, k));
            lemma_split_is_lower_bound(t, e, k);
        }
    }
}

/// In an ordered sequence the lower bound of `e` splits it at `e`.
pub proof fn lemma_lower_bound_splits<T: Ord>(s: Seq<T>, e: T)
    requires
        is_total_order::<T>(),
        sorted(s),
    ensures
        splits_at(s, e, lower_bound(s, e) as int),
    decreases s.len(),
{
    if s.len() > 0 {
        let t = s.drop_last();
        let n = t.len() as int;
        assert(forall|i: int| 0 <= i < t.len() ==> t[i] == s[i]);
        lemma_lower_bound_splits(t, e);
        let k = lower_bound(t, e) as int;
        if lt(s.last(), e) {
            assert(k == n) by {
                if k < n {
                    assert(!lt(t[k], e));
                    assert(le(s[k], s[n]));
                    lemma_trichotomy(s[k], e);
                    if lt(s[k], s[n]) {
                        lemma_lt_transitive(s[k], s[n], e);
                    } else {
                        lemma_equiv_then_lt(s[k], s[n], e);
                    }
                }
            }
            assert(splits_at(s, e, k + 1));
        } else {
            assert(splits_at(s, e, k));
        }
    }
}

/// In an ordered sequence an element in the place of `e`, if there is one,
/// stands at the lower bound of `e`.
pub proof fn lemma_occurs_at_lower_bound<T: Ord>(s: Seq<T>, e: T)
    requires
        is_total_order::<T>(),
        sorted(s),
    ensures
        occurs(s, e) <==> (lower_bound(s, e) < s.len() && equiv(s[lower_bound(s, e) as int], e)),
{
    let k = lower_bound(s, e) as int;
    lemma_lower_bound_splits(s, e);
    if occurs(s, e) {
        let i = choose|i: int| 0 <= i < s.len() && equiv(#[trigger] s[i], e);
        lemma_trichotomy(s[i], e);
        assert(k <= i);
        if k < i {
            assert(le(s[k], s[i]));
            lemma_trichotomy(s[k], e);
            lemma_equiv_symmetric(s[i], e);
            if lt(s[k], s[i]) {
                lemma_lt_then_equiv(s[k], s[i], e);
            } else {
                lemma_equiv_transitive(s[k], s[i], e);
            }
        }
    }
}

/// In an ordered sequence everything from the lower bound of `e` on comes
/// strictly after `e`, unless it takes the place of `e`.
pub proof fn lemma_after_lower_bound<T: Ord>(s: Seq<T>, e: T, i: int)
    requires
        is_total_order::<T>(),
        sorted(s),
        lower_bound(s, e) <= i < s.len(),
    ensures
        le(e, s[i]),
        !occurs(s, e) ==> lt(e, s[i]),
{
    lemma_lower_bound_splits(s, e);
    lemma_trichotomy(s[i], e);
    lemma_equiv_symmetric(s[i], e);
}

} // verus!
