//! When two sets are equal, and which of two comes first.
//!
//! Sets compare as their sequences of elements do: they are equal when the
//! sequences are equal element by element, and the first difference between
//! the sequences decides which set comes first.

use crate::ord_set::OrdSet;
use std::cmp::Ordering;
use vstd::prelude::*;
use vstd::std_specs::cmp::{PartialEqSpec, PartialEqSpecImpl, PartialOrdSpec, PartialOrdSpecImpl};

verus! {

/// The sequences have the same length and hold equal elements at each index.
pub open spec fn same_elements<T: PartialEq>(a: Seq<T>, b: Seq<T>) -> bool {
    &&& a.len() == b.len()
    &&& forall|i: int| 0 <= i < a.len() ==> (#[trigger] a[i]).eq_spec(&b[i])
}

/// How `a` stands to `b`: as their elements do at the first index where these
/// are not equal; if there is none, the shorter sequence comes first.
pub open spec fn lexical<T: PartialOrd>(a: Seq<T>, b: Seq<T>) -> Option<Ordering>
    decreases a.len(),
{
    if a.len() == 0 || b.len() == 0 {
        if a.len() < b.len() {
            Some(Ordering::Less)
        } else if a.len() == b.len() {
            Some(Ordering::Equal)
        } else {
            Some(Ordering::Greater)
        }
    } else {
        match a[0].partial_cmp_spec(&b[0]) {
            Some(Ordering::Equal) => lexical(a.drop_first(), b.drop_first()),
            decided => decided,
        }
    }
}

impl<T: Ord> PartialEq for OrdSet<T> {
    fn eq(&self, other: &OrdSet<T>) -> (r: bool) {
        let a = self.as_slice();
        let b = other.as_slice();
        if a.len() != b.len() {
            return false;
        }
        let mut i: usize = 0;
        while i < a.len()
            invariant
                a@ == self@,
                b@ == other@,
                a@.len() == b@.len(),
                i <= a@.len(),
                T::obeys_eq_spec() ==> forall|k: int|
                    0 <= k < i ==> (#[trigger] a@[k]).eq_spec(&b@[k]),
            decreases a@.len() - i,
        {
            if !(a[i] == b[i]) {
                return false;
            }
            i = i + 1;
        }
        true
    }
}

impl<T: Ord> PartialEqSpecImpl for OrdSet<T> {
    open spec fn obeys_eq_spec() -> bool {
        T::obeys_eq_spec()
    }

    open spec fn eq_spec(&self, other: &OrdSet<T>) -> bool {
        same_elements(self@, other@)
    }
}

impl<T: Ord> PartialOrd for OrdSet<T> {
    fn partial_cmp(&self, other: &OrdSet<T>) -> (r: Option<Ordering>) {
        let a = self.as_slice();
        let b = other.as_slice();
        let mut i: usize = 0;
        let ghost mut k: int = 0;
        proof {
            assert(a@.skip(0) == a@);
            assert(b@.skip(0) == b@);
        }
        while i < a.len() && i < b.len()
            invariant
                a@ == self@,
                b@ == other@,
                k == i,
                i <= a@.len(),
                i <= b@.len(),
                T::obeys_partial_cmp_spec() ==> lexical(a@, b@) == lexical(a@.skip(k), b@.skip(k)),
            decreases a@.len() - i,
        {
            proof {
                assert(a@.skip(k)[0] == a@[k]);
                assert(b@.skip(k)[0] == b@[k]);
                assert(a@.skip(k).drop_first() == a@.skip(k + 1));
                assert(b@.skip(k).drop_first() == b@.skip(k + 1));
            }
            match a[i].partial_cmp(&b[i]) {
                Some(Ordering::Equal) => {},
                decided => {
                    return decided;
                },
            }
            proof {
                k = k + 1;
            }
            i = i + 1;
        }
        proof {
            assert(a@.skip(k).len() == a@.len() - k);
            assert(b@.skip(k).len() == b@.len() - k);
        }
        if a.len() < b.len() {
            Some(Ordering::Less)
        } else if a.len() == b.len() {
            Some(Ordering::Equal)
        } else {
            Some(Ordering::Greater)
        }
    }
}

impl<T: Ord> PartialOrdSpecImpl for OrdSet<T> {
    open spec fn obeys_partial_cmp_spec() -> bool {
        T::obeys_partial_cmp_spec()
    }

    open spec fn partial_cmp_spec(&self, other: &OrdSet<T>) -> Option<Ordering> {
        lexical(self@, other@)
    }
}

} // verus!
