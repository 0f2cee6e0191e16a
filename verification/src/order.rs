//! The order on elements, as the containers of this crate see it.
//!
//! An element type brings its order through `Ord`. Everything here is stated
//! over three relations derived from it: `lt` (strictly before), `equiv`
//! (neither before the other) and `le`. Two elements that are `equiv` need not
//! be the same value: an element may carry data that its order ignores.

use std::cmp::Ordering;
use vstd::laws_cmp::obeys_cmp;
use vstd::prelude::*;
use vstd::std_specs::cmp::OrdSpec;
use vstd::std_specs::cmp::PartialEqSpec;
use vstd::std_specs::cmp::PartialOrdSpec;

verus! {

/// `T`'s comparison is a total order, and its executable comparison computes it.
pub open spec fn is_total_order<T: Ord>() -> bool {
    obeys_cmp::<T>()
}

/// `a` is ordered strictly before `b`.
pub open spec fn lt<T: Ord>(a: T, b: T) -> bool {
    a.cmp_spec(&b) == Ordering::Less
}

/// `a` and `b` take the same place in the order.
pub open spec fn equiv<T: Ord>(a: T, b: T) -> bool {
    a.cmp_spec(&b) == Ordering::Equal
}

/// `a` is ordered before `b`, or takes the same place.
pub open spec fn le<T: Ord>(a: T, b: T) -> bool {
    lt(a, b) || equiv(a, b)
}

/// Of `lt(a, b)`, `equiv(a, b)` and `lt(b, a)` exactly one holds.
pub proof fn lemma_trichotomy<T: Ord>(a: T, b: T)
    requires
        is_total_order::<T>(),
    ensures
        lt(a, b) || equiv(a, b) || lt(b, a),
        !(lt(a, b) && equiv(a, b)),
        !(lt(a, b) && lt(b, a)),
        !(equiv(a, b) && lt(b, a)),
{
    reveal(vstd::laws_cmp::obeys_partial_cmp_spec_properties);
    reveal(vstd::laws_cmp::obeys_cmp_partial_ord);
    reveal(vstd::laws_cmp::obeys_cmp_ord);
    reveal(vstd::laws_eq::obeys_eq_spec_properties);
    let ab = a.cmp_spec(&b);
    let ba = b.cmp_spec(&a);
    assert(a.partial_cmp_spec(&b) == Some(ab));
    assert(b.partial_cmp_spec(&a) == Some(ba));
    assert(ab == Ordering::Equal ==> ba == Ordering::Equal) by {
        if ab == Ordering::Equal {
            assert(a.eq_spec(&b));
            assert(b.eq_spec(&a));
        }
    }
    assert(ba == Ordering::Equal ==> ab == Ordering::Equal) by {
        if ba == Ordering::Equal {
            assert(b.eq_spec(&a));
            assert(a.eq_spec(&b));
        }
    }
}

/// Every element takes the same place as itself.
pub proof fn lemma_equiv_reflexive<T: Ord>(a: T)
    requires
        is_total_order::<T>(),
    ensures
        equiv(a, a),
        !lt(a, a),
{
    lemma_trichotomy(a, a);
}

/// `equiv` does not depend on the side an element stands on.
pub proof fn lemma_equiv_symmetric<T: Ord>(a: T, b: T)
    requires
        is_total_order::<T>(),
    ensures
        equiv(a, b) == equiv(b, a),
{
    lemma_trichotomy(a, b);
    lemma_trichotomy(b, a);
}

/// `equiv` carries over a middle element.
pub proof fn lemma_equiv_transitive<T: Ord>(a: T, b: T, c: T)
    requires
        is_total_order::<T>(),
        equiv(a, b),
        equiv(b, c),
    ensures
        equiv(a, c),
{
    reveal(vstd::laws_cmp::obeys_partial_cmp_spec_properties);
    reveal(vstd::laws_cmp::obeys_cmp_partial_ord);
    reveal(vstd::laws_cmp::obeys_cmp_ord);
    reveal(vstd::laws_eq::obeys_eq_spec_properties);
    assert(a.partial_cmp_spec(&b) == Some(a.cmp_spec(&b)));
    assert(b.partial_cmp_spec(&c) == Some(b.cmp_spec(&c)));
    assert(a.partial_cmp_spec(&c) == Some(a.cmp_spec(&c)));
    assert(a.eq_spec(&b));
    assert(b.eq_spec(&c));
    assert(a.eq_spec(&c));
}

/// `lt` carries over a middle element.
pub proof fn lemma_lt_transitive<T: Ord>(a: T, b: T, c: T)
    requires
        is_total_order::<T>(),
        lt(a, b),
        lt(b, c),
    ensures
        lt(a, c),
{
    reveal(vstd::laws_cmp::obeys_partial_cmp_spec_properties);
    reveal(vstd::laws_cmp::obeys_cmp_ord);
    assert(a.partial_cmp_spec(&b) == Some(a.cmp_spec(&b)));
    assert(b.partial_cmp_spec(&c) == Some(b.cmp_spec(&c)));
    assert(a.partial_cmp_spec(&c) == Some(a.cmp_spec(&c)));
}

/// An element before `b` is before everything that takes `b`'s place.
pub proof fn lemma_lt_then_equiv<T: Ord>(a: T, b: T, c: T)
    requires
        is_total_order::<T>(),
        lt(a, b),
        equiv(b, c),
    ensures
        lt(a, c),
{
    lemma_trichotomy(a, c);
    lemma_trichotomy(a, b);
    lemma_trichotomy(c, b);
    if equiv(a, c) {
        lemma_equiv_symmetric(b, c);
        lemma_equiv_transitive(a, c, b);
    } else if lt(c, a) {
        lemma_lt_transitive(c, a, b);
        lemma_equiv_symmetric(b, c);
    }
}

/// An element that takes `b`'s place is before everything that `b` is before.
pub proof fn lemma_equiv_then_lt<T: Ord>(a: T, b: T, c: T)
    requires
        is_total_order::<T>(),
        equiv(a, b),
        lt(b, c),
    ensures
        lt(a, c),
{
    lemma_trichotomy(a, c);
    lemma_trichotomy(b, c);
    lemma_trichotomy(a, b);
    if equiv(a, c) {
        lemma_equiv_symmetric(a, b);
        lemma_equiv_transitive(b, a, c);
    } else if lt(c, a) {
        lemma_lt_transitive(b, c, a);
        lemma_equiv_symmetric(a, b);
    }
}

/// An element that is not after `b` is before everything that `b` is before.
pub proof fn lemma_le_then_lt<T: Ord>(a: T, b: T, c: T)
    requires
        is_total_order::<T>(),
        le(a, b),
        lt(b, c),
    ensures
        lt(a, c),
{
    if lt(a, b) {
        lemma_lt_transitive(a, b, c);
    } else {
        lemma_equiv_then_lt(a, b, c);
    }
}

/// `le` carries over a middle element.
pub proof fn lemma_le_transitive<T: Ord>(a: T, b: T, c: T)
    requires
        is_total_order::<T>(),
        le(a, b),
        le(b, c),
    ensures
        le(a, c),
{
    if lt(a, b) {
        if lt(b, c) {
            lemma_lt_transitive(a, b, c);
        } else {
            lemma_lt_then_equiv(a, b, c);
        }
    } else {
        if lt(b, c) {
            lemma_equiv_then_lt(a, b, c);
        } else {
            lemma_equiv_transitive(a, b, c);
        }
    }
}

/// Tells whether `a` is ordered strictly before `b`.
pub fn precedes<T: Ord>(a: &T, b: &T) -> (r: bool)
    requires
        is_total_order::<T>(),
    ensures
        r == lt(*a, *b),
{
    proof {
        reveal(vstd::laws_cmp::obeys_cmp_ord);
    }
    match a.cmp(b) {
        Ordering::Less => true,
        Ordering::Equal => false,
        Ordering::Greater => false,
    }
}

/// Tells whether `a` and `b` take the same place in the order.
pub fn same_place<T: Ord>(a: &T, b: &T) -> (r: bool)
    requires
        is_total_order::<T>(),
    ensures
        r == equiv(*a, *b),
{
    proof {
        reveal(vstd::laws_cmp::obeys_cmp_ord);
    }
    match a.cmp(b) {
        Ordering::Less => false,
        Ordering::Equal => true,
        Ordering::Greater => false,
    }
}

} // verus!
