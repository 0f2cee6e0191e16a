//! Bringing a sequence into order.
//!
//! The sorting itself is the standard library's. This module says what a
//! sorted copy of a sequence is, and proves what follows from that.

use crate::order::{equiv, is_total_order, le, lemma_equiv_symmetric, lemma_trichotomy, lt};
use crate::sorted::{sorted, strictly_sorted};
use vstd::prelude::*;
use vstd::set_lib::{lemma_int_range, lemma_subset_equality, set_int_range};

verus! {

/// `r` holds the elements of `s` in order, and `from` tells where they came
/// from: `r[k]` is `s[from[k]]`, no index of `s` is used twice, and of two
/// elements in the same place the one that stood first in `s` stands first in
/// `r`.
pub open spec fn arranges<T: Ord>(from: Seq<int>, s: Seq<T>, r: Seq<T>) -> bool {
    &&& from.len() == s.len()
    &&& r.len() == s.len()
    &&& from.no_duplicates()
    &&& forall|k: int|
        0 <= k < r.len() ==> 0 <= #[trigger] from[k] < s.len() && r[k] == s[from[k]]
    &&& forall|i: int, j: int|
        #![trigger r[i], r[j]]
        0 <= i < j < r.len() ==> lt(r[i], r[j]) || (equiv(r[i], r[j]) && from[i] < from[j])
}

/// `r` is `s` sorted, with the elements that take the same place left in the
/// order in which `s` has them.
pub open spec fn is_stable_sort_of<T: Ord>(r: Seq<T>, s: Seq<T>) -> bool {
    exists|from: Seq<int>| arranges(from, s, r)
}

/// No two elements of `s` take the same place.
pub open spec fn all_apart<T: Ord>(s: Seq<T>) -> bool {
    forall|i: int, j: int| 0 <= i < j < s.len() ==> !equiv(#[trigger] s[i], #[trigger] s[j])
}

/// Sorts `items` with `<[T]>::sort` of the standard library.
///
/// Not proved, but taken from the documentation of `sort`: afterwards the
/// vector holds the same elements as before, each as often as before, in
/// ascending order, and elements that compare equal have kept their order.
/// `sort` may panic where the order is not total, so a total order is asked
/// for.
#[verifier::external_body]
pub(crate) fn sort_vec<T: Ord>(items: &mut Vec<T>)
    requires
        is_total_order::<T>(),
    ensures
        is_stable_sort_of(final(items)@, old(items)@),
        final(items)@.to_multiset() == old(items)@.to_multiset(),
{
    items.sort();
}

/// A sorted copy is ordered.
pub proof fn lemma_stable_sort_sorted<T: Ord>(r: Seq<T>, s: Seq<T>)
    requires
        is_stable_sort_of(r, s),
    ensures
        sorted(r),
        r.len() == s.len(),
{
    let from = choose|from: Seq<int>| arranges(from, s, r);
    assert forall|i: int, j: int| 0 <= i < j < r.len() implies le(
        #[trigger] r[i],
        #[trigger] r[j],
    ) by {
        assert(lt(r[i], r[j]) || (equiv(r[i], r[j]) && from[i] < from[j]));
    }
}

/// Indices below `n` that go strictly up, `n` of them, are `0`, `1`, and so on.
proof fn lemma_rising_indices(from: Seq<int>, k: int)
    requires
        forall|i: int| 0 <= i < from.len() ==> 0 <= #[trigger] from[i] < from.len(),
        forall|i: int, j: int| 0 <= i < j < from.len() ==> #[trigger] from[i] < #[trigger] from[j],
        0 <= k < from.len(),
    ensures
        from[k] == k,
{
    lemma_rising_from_below(from, k);
    lemma_rising_from_above(from, k);
}

proof fn lemma_rising_from_below(from: Seq<int>, k: int)
    requires
        forall|i: int| 0 <= i < from.len() ==> 0 <= #[trigger] from[i] < from.len(),
        forall|i: int, j: int| 0 <= i < j < from.len() ==> #[trigger] from[i] < #[trigger] from[j],
        0 <= k < from.len(),
    ensures
        from[k] >= k,
    decreases k,
{
    if k > 0 {
        lemma_rising_from_below(from, k - 1);
        assert(from[k - 1] < from[k]);
    }
}

proof fn lemma_rising_from_above(from: Seq<int>, k: int)
    requires
        forall|i: int| 0 <= i < from.len() ==> 0 <= #[trigger] from[i] < from.len(),
        forall|i: int, j: int| 0 <= i < j < from.len() ==> #[trigger] from[i] < #[trigger] from[j],
        0 <= k < from.len(),
    ensures
        from[k] <= k,
    decreases from.len() - k,
{
    if k < from.len() - 1 {
        lemma_rising_from_above(from, k + 1);
        assert(from[k] < from[k + 1]);
    }
}

/// Sorting a sequence that is in order already changes nothing.
pub proof fn law_sort_of_sorted<T: Ord>(r: Seq<T>, s: Seq<T>)
    requires
        is_total_order::<T>(),
        sorted(s),
        is_stable_sort_of(r, s),
    ensures
        r == s,
{
    let from = choose|from: Seq<int>| arranges(from, s, r);
    assert forall|i: int, j: int| 0 <= i < j < from.len() implies #[trigger] from[i]
        < #[trigger] from[j] by {
        if from[i] > from[j] {
            assert(le(s[from[j]], s[from[i]]));
            assert(lt(r[i], r[j]) || (equiv(r[i], r[j]) && from[i] < from[j]));
            lemma_trichotomy(r[i], r[j]);
            lemma_equiv_symmetric(r[i], r[j]);
        }
    }
    assert forall|k: int| 0 <= k < r.len() implies r[k] == s[k] by {
        lemma_rising_indices(from, k);
        assert(r[k] == s[from[k]]);
    }
    assert(r =~= s);
}

/// Every index of `s` is used by an arrangement of `s`.
proof fn lemma_arrangement_uses_all<T: Ord>(from: Seq<int>, s: Seq<T>, r: Seq<T>, a: int)
    requires
        arranges(from, s, r),
        0 <= a < s.len(),
    ensures
        exists|k: int| 0 <= k < from.len() && #[trigger] from[k] == a,
{
    let n = s.len() as int;
    from.unique_seq_to_set();
    lemma_int_range(0, n);
    assert(from.to_set().finite()) by {
        vstd::seq_lib::seq_to_set_is_finite(from);
    }
    assert(from.to_set().subset_of(set_int_range(0, n))) by {
        assert forall|x: int| from.to_set().contains(x) implies set_int_range(0, n).contains(
            x,
        ) by {
            assert(from.contains(x));
            let k = choose|k: int| 0 <= k < from.len() && from[k] == x;
            assert(0 <= from[k] < s.len());
        }
    }
    lemma_subset_equality(from.to_set(), set_int_range(0, n));
    assert(set_int_range(0, n).contains(a));
    assert(from.to_set().contains(a));
    assert(from.contains(a));
}

/// A sorted copy is strictly ordered just when no two elements of the
/// sequence take the same place.
pub proof fn lemma_stable_sort_strict<T: Ord>(r: Seq<T>, s: Seq<T>)
    requires
        is_total_order::<T>(),
        is_stable_sort_of(r, s),
    ensures
        strictly_sorted(r) <==> all_apart(s),
{
    let from = choose|from: Seq<int>| arranges(from, s, r);
    if all_apart(s) {
        assert forall|i: int, j: int| 0 <= i < j < r.len() implies lt(
            #[trigger] r[i],
            #[trigger] r[j],
        ) by {
            assert(lt(r[i], r[j]) || (equiv(r[i], r[j]) && from[i] < from[j]));
            if !lt(r[i], r[j]) {
                assert(r[i] == s[from[i]] && r[j] == s[from[j]]);
                assert(!equiv(s[from[i]], s[from[j]]));
            }
        }
    }
    if strictly_sorted(r) {
        assert forall|a: int, b: int| 0 <= a < b < s.len() implies !equiv(
            #[trigger] s[a],
            #[trigger] s[b],
        ) by {
            lemma_arrangement_uses_all(from, s, r, a);
            lemma_arrangement_uses_all(from, s, r, b);
            let i = choose|k: int| 0 <= k < from.len() && #[trigger] from[k] == a;
            let j = choose|k: int| 0 <= k < from.len() && #[trigger] from[k] == b;
            assert(r[i] == s[a] && r[j] == s[b]);
            lemma_trichotomy(r[i], r[j]);
            lemma_equiv_symmetric(r[i], r[j]);
            if i < j {
                assert(lt(r[i], r[j]));
            } else {
                assert(lt(r[j], r[i]));
            }
        }
    }
}

} // verus!
