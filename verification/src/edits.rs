//! What the operations of an ordered set do to its sequence of elements.
//!
//! The contracts of [`crate::ord_set::OrdSet`] are written over the functions
//! of this module, and the laws that relate one operation to another are
//! proved here.

use crate::order::{
    equiv, is_total_order, le, lemma_equiv_reflexive, lemma_equiv_symmetric, lemma_equiv_then_lt,
    lemma_equiv_transitive, lemma_le_transitive, lemma_lt_then_equiv, lemma_trichotomy, lt,
};
use crate::sorted::{
    lemma_after_lower_bound, lemma_lower_bound_splits, lemma_occurs_at_lower_bound,
    lemma_split_is_lower_bound, lower_bound, occurs, sorted, splits_at, strictly_sorted,
};
use vstd::prelude::*;

verus! {

/// `s` after `e` was put into it: over the element that took its place, if
/// there was one, else at the index where it belongs.
pub open spec fn inserted<T: Ord>(s: Seq<T>, e: T) -> Seq<T> {
    if occurs(s, e) {
        s.update(lower_bound(s, e) as int, e)
    } else {
        s.insert(lower_bound(s, e) as int, e)
    }
}

/// The element that `e` takes the place of when it is put into `s`.
pub open spec fn replaced<T: Ord>(s: Seq<T>, e: T) -> Option<T> {
    if occurs(s, e) {
        Some(s[lower_bound(s, e) as int])
    } else {
        None
    }
}

/// `s` after the element in the place of `e` was taken out of it.
pub open spec fn removed<T: Ord>(s: Seq<T>, e: T) -> Seq<T> {
    if occurs(s, e) {
        s.remove(lower_bound(s, e) as int)
    } else {
        s
    }
}

/// `s` after the elements of `items` were put into it one by one, the first
/// of them first.
pub open spec fn appended<T: Ord>(s: Seq<T>, items: Seq<T>) -> Seq<T>
    decreases items.len(),
{
    if items.len() == 0 {
        s
    } else {
        inserted(appended(s, items.drop_last()), items.last())
    }
}

/// While the elements of `items` were put into `s` one by one, one of them
/// found its place free.
pub open spec fn grows<T: Ord>(s: Seq<T>, items: Seq<T>) -> bool
    decreases items.len(),
{
    if items.len() == 0 {
        false
    } else {
        grows(s, items.drop_last()) || !occurs(appended(s, items.drop_last()), items.last())
    }
}

/// What is left of `s` when each element whose entry in `keep` is `false` is
/// taken out. `keep` has an entry for every element of `s`.
pub open spec fn selected<T>(s: Seq<T>, keep: Seq<bool>) -> Seq<T>
    decreases s.len(),
{
    if s.len() == 0 {
        s
    } else {
        let rest = selected(s.drop_last(), keep.take(s.len() - 1));
        if keep[s.len() - 1] {
            rest.push(s.last())
        } else {
            rest
        }
    }
}

/// Putting an element in keeps an ordered sequence ordered, and a strictly
/// ordered one strictly ordered.
pub proof fn lemma_inserted_sorted<T: Ord>(s: Seq<T>, e: T)
    requires
        is_total_order::<T>(),
        sorted(s),
    ensures
        sorted(inserted(s, e)),
        strictly_sorted(s) ==> strictly_sorted(inserted(s, e)),
{
    let k = lower_bound(s, e) as int;
    let r = inserted(s, e);
    lemma_lower_bound_splits(s, e);
    lemma_occurs_at_lower_bound(s, e);
    if occurs(s, e) {
        lemma_equiv_symmetric(s[k], e);
        assert forall|i: int, j: int| 0 <= i < j < r.len() implies le(
            #[trigger] r[i],
            #[trigger] r[j],
        ) by {
            assert(le(s[i], s[j]));
            if j == k {
                lemma_le_transitive(s[i], s[k], e);
            } else if i == k {
                lemma_le_transitive(e, s[k], s[j]);
            }
        }
        if strictly_sorted(s) {
            assert forall|i: int, j: int| 0 <= i < j < r.len() implies lt(
                #[trigger] r[i],
                #[trigger] r[j],
            ) by {
                assert(lt(s[i], s[j]));
                if j == k {
                    lemma_lt_then_equiv(s[i], s[k], e);
                } else if i == k {
                    lemma_equiv_then_lt(e, s[k], s[j]);
                }
            }
        }
    } else {
        assert forall|i: int, j: int| 0 <= i < j < r.len() implies le(
            #[trigger] r[i],
            #[trigger] r[j],
        ) && (strictly_sorted(s) ==> lt(r[i], r[j])) by {
            if j == k {
                assert(lt(s[i], e));
            } else if i == k {
                lemma_after_lower_bound(s, e, j - 1);
            } else {
                let a = if i < k { i } else { i - 1 };
                let b = if j < k { j } else { j - 1 };
                assert(r[i] == s[a] && r[j] == s[b]);
                assert(le(s[a], s[b]));
                if strictly_sorted(s) {
                    assert(lt(s[a], s[b]));
                }
            }
        }
    }
}

/// Taking an element out keeps an ordered sequence ordered, and a strictly
/// ordered one strictly ordered.
pub proof fn lemma_removed_sorted<T: Ord>(s: Seq<T>, e: T)
    requires
        is_total_order::<T>(),
        sorted(s),
    ensures
        sorted(removed(s, e)),
        strictly_sorted(s) ==> strictly_sorted(removed(s, e)),
{
    let k = lower_bound(s, e) as int;
    let r = removed(s, e);
    lemma_occurs_at_lower_bound(s, e);
    if occurs(s, e) {
        assert forall|i: int, j: int| 0 <= i < j < r.len() implies le(
            #[trigger] r[i],
            #[trigger] r[j],
        ) && (strictly_sorted(s) ==> lt(r[i], r[j])) by {
            let a = if i < k { i } else { i + 1 };
            let b = if j < k { j } else { j + 1 };
            assert(r[i] == s[a] && r[j] == s[b]);
            assert(le(s[a], s[b]));
            if strictly_sorted(s) {
                assert(lt(s[a], s[b]));
            }
        }
    }
}

/// Putting elements in one by one keeps an ordered sequence ordered, and a
/// strictly ordered one strictly ordered.
pub proof fn lemma_appended_sorted<T: Ord>(s: Seq<T>, items: Seq<T>)
    requires
        is_total_order::<T>(),
        sorted(s),
    ensures
        sorted(appended(s, items)),
        strictly_sorted(s) ==> strictly_sorted(appended(s, items)),
    decreases items.len(),
{
    if items.len() > 0 {
        lemma_appended_sorted(s, items.drop_last());
        lemma_inserted_sorted(appended(s, items.drop_last()), items.last());
    }
}

/// After `e` was put into an ordered sequence it stands there, at the index
/// where it belonged before.
pub proof fn lemma_inserted_stands<T: Ord>(s: Seq<T>, e: T)
    requires
        is_total_order::<T>(),
        sorted(s),
    ensures
        occurs(inserted(s, e), e),
        lower_bound(inserted(s, e), e) == lower_bound(s, e),
        lower_bound(s, e) < inserted(s, e).len(),
        inserted(s, e)[lower_bound(s, e) as int] == e,
        inserted(s, e).len() == if occurs(s, e) {
            s.len()
        } else {
            s.len() + 1
        },
{
    let k = lower_bound(s, e) as int;
    let r = inserted(s, e);
    lemma_lower_bound_splits(s, e);
    lemma_occurs_at_lower_bound(s, e);
    lemma_equiv_reflexive(e);
    assert(r[k] == e);
    assert(splits_at(r, e, k)) by {
        assert forall|i: int| 0 <= i < k implies lt(#[trigger] r[i], e) by {
            assert(r[i] == s[i]);
        }
        assert forall|i: int| k <= i < r.len() implies !lt(#[trigger] r[i], e) by {
            if i > k {
                if occurs(s, e) {
                    assert(r[i] == s[i]);
                } else {
                    assert(r[i] == s[i - 1]);
                }
            }
        }
    }
    lemma_split_is_lower_bound(r, e, k);
    assert(equiv(r[k], e));
}

/// Putting the same element in twice: the second time it takes the place of
/// the first, which is handed back, and the sequence has grown by one element
/// over both steps where the place was free at first.
pub proof fn law_insert_twice<T: Ord>(s: Seq<T>, e: T)
    requires
        is_total_order::<T>(),
        sorted(s),
        !occurs(s, e),
    ensures
        inserted(inserted(s, e), e).len() == s.len() + 1,
        replaced(inserted(s, e), e) == Some(e),
        inserted(inserted(s, e), e) == inserted(s, e),
{
    lemma_inserted_stands(s, e);
    let r = inserted(s, e);
    assert(r.update(lower_bound(s, e) as int, e) =~= r);
}

/// Putting an element into a place that was free and taking it out again
/// gives the sequence back as it was.
pub proof fn law_insert_then_remove<T: Ord>(s: Seq<T>, e: T)
    requires
        is_total_order::<T>(),
        sorted(s),
        !occurs(s, e),
    ensures
        removed(inserted(s, e), e) == s,
{
    lemma_inserted_stands(s, e);
    let k = lower_bound(s, e) as int;
    lemma_lower_bound_splits(s, e);
    assert(s.insert(k, e).remove(k) =~= s);
}

/// What stands in the place of `e` does not depend on which of the elements
/// that take that place `e` is.
pub proof fn lemma_same_place_same_index<T: Ord>(s: Seq<T>, e: T, other: T)
    requires
        is_total_order::<T>(),
        equiv(e, other),
    ensures
        lower_bound(s, e) == lower_bound(s, other),
        occurs(s, e) == occurs(s, other),
    decreases s.len(),
{
    lemma_equiv_symmetric(e, other);
    if s.len() > 0 {
        lemma_same_place_same_index(s.drop_last(), e, other);
        lemma_trichotomy(s.last(), e);
        lemma_trichotomy(s.last(), other);
        if lt(s.last(), e) {
            lemma_lt_then_equiv(s.last(), e, other);
        }
        if lt(s.last(), other) {
            lemma_lt_then_equiv(s.last(), other, e);
        }
    }
    if occurs(s, e) {
        let i = choose|i: int| 0 <= i < s.len() && equiv(#[trigger] s[i], e);
        lemma_equiv_transitive(s[i], e, other);
    }
    if occurs(s, other) {
        let i = choose|i: int| 0 <= i < s.len() && equiv(#[trigger] s[i], other);
        lemma_equiv_transitive(s[i], other, e);
    }
}

/// An element put in after one that takes the same place replaces it: the
/// first is handed back and the sequence keeps its length.
pub proof fn law_insert_same_place<T: Ord>(s: Seq<T>, first: T, second: T)
    requires
        is_total_order::<T>(),
        sorted(s),
        equiv(first, second),
    ensures
        replaced(inserted(s, first), second) == Some(first),
        inserted(inserted(s, first), second).len() == inserted(s, first).len(),
{
    lemma_inserted_stands(s, first);
    lemma_same_place_same_index(inserted(s, first), first, second);
}

/// After `e` was put into an ordered sequence, the places that are taken are
/// those that were taken before and the place of `e`.
pub proof fn law_inserted_members<T: Ord>(s: Seq<T>, e: T, x: T)
    requires
        is_total_order::<T>(),
        sorted(s),
    ensures
        occurs(inserted(s, e), x) <==> (occurs(s, x) || equiv(e, x)),
{
    let k = lower_bound(s, e) as int;
    let r = inserted(s, e);
    lemma_inserted_stands(s, e);
    lemma_occurs_at_lower_bound(s, e);
    lemma_lower_bound_splits(s, e);
    if equiv(e, x) {
        assert(equiv(r[k], x));
    }
    if occurs(s, x) {
        let i = choose|i: int| 0 <= i < s.len() && equiv(#[trigger] s[i], x);
        if occurs(s, e) {
            if i == k {
                lemma_equiv_symmetric(s[k], e);
                lemma_equiv_transitive(e, s[k], x);
                assert(equiv(r[k], x));
            } else {
                assert(equiv(r[i], x));
            }
        } else {
            if i < k {
                assert(equiv(r[i], x));
            } else {
                assert(r[i + 1] == s[i]);
                assert(equiv(r[i + 1], x));
            }
        }
    }
    if occurs(r, x) && !equiv(e, x) {
        let j = choose|j: int| 0 <= j < r.len() && equiv(#[trigger] r[j], x);
        if occurs(s, e) {
            assert(equiv(s[j], x));
        } else {
            if j < k {
                assert(equiv(s[j], x));
            } else {
                assert(r[j] == s[j - 1]);
                assert(equiv(s[j - 1], x));
            }
        }
    }
}

/// After the element in the place of `e` was taken out of a strictly ordered
/// sequence, the places that are taken are those that were taken before, but
/// for the place of `e`.
pub proof fn law_removed_members<T: Ord>(s: Seq<T>, e: T, x: T)
    requires
        is_total_order::<T>(),
        strictly_sorted(s),
    ensures
        occurs(removed(s, e), x) <==> (occurs(s, x) && !equiv(e, x)),
{
    let k = lower_bound(s, e) as int;
    let r = removed(s, e);
    lemma_occurs_at_lower_bound(s, e);
    lemma_equiv_symmetric(e, x);
    if occurs(s, e) {
        lemma_equiv_symmetric(s[k], e);
        if occurs(r, x) {
            let j = choose|j: int| 0 <= j < r.len() && equiv(#[trigger] r[j], x);
            let i = if j < k { j } else { j + 1 };
            assert(r[j] == s[i]);
            assert(equiv(s[i], x));
            if equiv(e, x) {
                lemma_equiv_transitive(s[i], x, e);
                lemma_equiv_transitive(s[i], e, s[k]);
                lemma_trichotomy(s[i], s[k]);
                lemma_trichotomy(s[k], s[i]);
                if i < k {
                    assert(lt(s[i], s[k]));
                } else {
                    assert(lt(s[k], s[i]));
                }
            }
        }
        if occurs(s, x) && !equiv(e, x) {
            let i = choose|i: int| 0 <= i < s.len() && equiv(#[trigger] s[i], x);
            if i == k {
                lemma_equiv_transitive(e, s[k], x);
            } else if i < k {
                assert(equiv(r[i], x));
            } else {
                assert(r[i - 1] == s[i]);
                assert(equiv(r[i - 1], x));
            }
        }
    } else {
        if occurs(s, x) && equiv(e, x) {
            let i = choose|i: int| 0 <= i < s.len() && equiv(#[trigger] s[i], x);
            lemma_equiv_transitive(s[i], x, e);
        }
    }
}

/// Every element that is left after a selection stood in the sequence before,
/// no earlier than where it stands now; so a selection of an ordered sequence
/// is ordered, and one of a strictly ordered sequence strictly ordered.
pub proof fn lemma_selected_sorted<T: Ord>(s: Seq<T>, keep: Seq<bool>)
    requires
        keep.len() == s.len(),
    ensures
        selected(s, keep).len() <= s.len(),
        forall|j: int|
            0 <= j < selected(s, keep).len() ==> exists|i: int|
                j <= i < s.len() && #[trigger] selected(s, keep)[j] == s[i],
        sorted(s) ==> sorted(selected(s, keep)),
        strictly_sorted(s) ==> strictly_sorted(selected(s, keep)),
    decreases s.len(),
{
    if s.len() > 0 {
        let n = s.len() - 1;
        let t = s.drop_last();
        let rest = selected(t, keep.take(n));
        let r = selected(s, keep);
        lemma_selected_sorted(t, keep.take(n));
        assert(forall|i: int| 0 <= i < n ==> t[i] == s[i]);
        assert forall|j: int| 0 <= j < r.len() implies exists|i: int|
            j <= i < s.len() && #[trigger] r[j] == s[i] by {
            if j < rest.len() {
                let i = choose|i: int| j <= i < t.len() && rest[j] == t[i];
                assert(r[j] == s[i]);
            } else {
                assert(r[j] == s[n]);
            }
        }
        if sorted(s) {
            assert(sorted(t));
            assert forall|i: int, j: int| 0 <= i < j < r.len() implies le(
                #[trigger] r[i],
                #[trigger] r[j],
            ) by {
                if j < rest.len() {
                    assert(le(rest[i], rest[j]));
                } else {
                    let a = choose|a: int| i <= a < t.len() && rest[i] == t[a];
                    assert(le(s[a], s[n]));
                }
            }
        }
        if strictly_sorted(s) {
            assert(strictly_sorted(t));
            assert forall|i: int, j: int| 0 <= i < j < r.len() implies lt(
                #[trigger] r[i],
                #[trigger] r[j],
            ) by {
                if j < rest.len() {
                    assert(lt(rest[i], rest[j]));
                } else {
                    let a = choose|a: int| i <= a < t.len() && rest[i] == t[a];
                    assert(lt(s[a], s[n]));
                }
            }
        }
    }
}

/// A selection that keeps just the elements for which `pred` holds is the
/// sequence filtered by `pred`.
pub proof fn lemma_selected_is_filter<T>(s: Seq<T>, keep: Seq<bool>, pred: spec_fn(T) -> bool)
    requires
        keep.len() == s.len(),
        forall|i: int| 0 <= i < s.len() ==> #[trigger] keep[i] == pred(s[i]),
    ensures
        selected(s, keep) == s.filter(pred),
    decreases s.len(),
{
    reveal(Seq::filter);
    if s.len() > 0 {
        let n = s.len() - 1;
        assert(keep[n] == pred(s[n]));
        assert forall|i: int| 0 <= i < n implies #[trigger] keep.take(n)[i] == pred(
            s.drop_last()[i],
        ) by {
            assert(keep[i] == pred(s[i]));
        }
        lemma_selected_is_filter(s.drop_last(), keep.take(n), pred);
    }
}

} // verus!
