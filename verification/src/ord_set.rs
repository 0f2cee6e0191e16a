//! A set kept as an ordered vector.

use crate::edits::{
    appended, grows, inserted, lemma_appended_sorted, lemma_inserted_sorted, lemma_removed_sorted,
    lemma_selected_is_filter, lemma_selected_sorted, removed, replaced, selected,
};
use crate::order::is_total_order;
use crate::search::binary_search;
use crate::sorted::{occurs, sorted, strictly_sorted};
use crate::sorting::{
    all_apart, is_stable_sort_of, lemma_stable_sort_sorted, lemma_stable_sort_strict, sort_vec,
};
use vstd::pervasive::VecAdditionalExecFns;
use vstd::prelude::*;
use vstd::std_specs::iter::IteratorSpec;

verus! {

/// A set of elements of an ordered type, held in order in a `Vec`.
///
/// Lookup is by binary search. Inserting and removing shift the elements
/// behind the place concerned, so the set suits small collections and ones
/// that are read more than they are changed.
///
/// The view of a set is the sequence of its elements. A set is well formed
/// ([`OrdSet::wf`]) when that sequence is in order, and strict
/// ([`OrdSet::is_strict`]) when no two of its elements take the same place.
/// Every set made by [`OrdSet::new`] or [`OrdSet::with_capacity`] is strict and
/// stays so under all operations. [`OrdSet::from_unsorted`] keeps elements that
/// take the same place, all of them: its result is well formed, and strict only
/// where the sequence it was given held no such elements.
#[derive(Clone, Debug, Eq, Ord)]
pub struct OrdSet<T: Ord>(Vec<T>);

impl<T: Ord> View for OrdSet<T> {
    type V = Seq<T>;

    closed spec fn view(&self) -> Seq<T> {
        self.0@
    }
}

/// `keep` holds, for each element of `s`, an answer that `f` may give when it
/// is asked about that element.
pub open spec fn answers_of<T, F: FnMut(&T) -> bool>(f: F, s: Seq<T>, keep: Seq<bool>) -> bool {
    &&& keep.len() == s.len()
    &&& forall|i: int| 0 <= i < s.len() ==> call_ensures(f, (&s[i],), #[trigger] keep[i])
}

/// Asked about an element of `s`, `f` answers what `pred` says of it.
pub open spec fn decides<T, F: FnMut(&T) -> bool>(f: F, s: Seq<T>, pred: spec_fn(T) -> bool) -> bool {
    forall|i: int, keep: bool|
        0 <= i < s.len() && #[trigger] call_ensures(f, (&s[i],), keep) ==> keep == pred(s[i])
}

/// `Vec::capacity` of the standard library: the number of elements that the
/// vector can hold without allocating again.
///
/// Not proved, but taken from the documentation of `Vec`: the capacity is
/// never below the length.
#[verifier::external_body]
fn vec_capacity<T>(items: &Vec<T>) -> (n: usize)
    ensures
        n >= items@.len(),
{
    items.capacity()
}

/// Asks `f` about each element that `iter` gives and moves those for which it
/// answers `true` into `kept`, which is empty at first. Hands back the answers.
fn keep_from<T, I, F>(kept: &mut Vec<T>, iter: I, f: F) -> (keep: Ghost<Seq<bool>>) where
    I: Iterator<Item = T>,
    F: FnMut(&T) -> bool,

    requires
        old(kept)@.len() == 0,
        iter.obeys_prophetic_iter_laws(),
        iter.decrease() is Some,
        forall|i: int|
            0 <= i < iter.remaining().len() ==> call_requires(
                f,
                (&#[trigger] iter.remaining()[i],),
            ),
    ensures
        answers_of(f, iter.remaining(), keep@),
        final(kept)@ == selected(iter.remaining(), keep@),
{
    let ghost all = iter.remaining();
    let ghost asked = f;
    let mut iter = iter;
    let mut f = f;
    let ghost mut keep: Seq<bool> = Seq::empty();
    loop
        invariant
            iter.obeys_prophetic_iter_laws(),
            iter.decrease() is Some,
            keep.len() <= all.len(),
            f == asked,
            iter.remaining() == all.skip(keep.len() as int),
            answers_of(f, all.take(keep.len() as int), keep),
            kept@ == selected(all.take(keep.len() as int), keep),
            forall|i: int| 0 <= i < all.len() ==> call_requires(f, (&#[trigger] all[i],)),
        ensures
            keep.len() == all.len(),
        decreases iter.decrease()->0,
    {
        match iter.next() {
            Some(elem) => {
                let ghost n = keep.len() as int;
                assert(elem == all[n]);
                let answer = f(&elem);
                proof {
                    let before = keep;
                    keep = before.push(answer);
                    assert(all.take(n + 1).drop_last() == all.take(n));
                    assert(keep.take(n) == before);
                    assert(all.skip(n).drop_first() == all.skip(n + 1));
                    assert forall|i: int| 0 <= i < n + 1 implies call_ensures(
                        f,
                        (&all.take(n + 1)[i],),
                        #[trigger] keep[i],
                    ) by {
                        if i < n {
                            assert(keep[i] == before[i]);
                            assert(all.take(n + 1)[i] == all.take(n)[i]);
                        }
                    }
                }
                if answer {
                    kept.push(elem);
                }
            },
            None => {
                break ;
            },
        }
    }
    proof {
        assert(all.take(all.len() as int) == all);
    }
    Ghost(keep)
}

impl<T: Ord> OrdSet<T> {
    /// The elements are in order.
    pub open spec fn wf(&self) -> bool {
        sorted(self@)
    }

    /// The elements are in order and no two of them take the same place.
    pub open spec fn is_strict(&self) -> bool {
        strictly_sorted(self@)
    }

    /// An empty set.
    pub fn new() -> (s: OrdSet<T>)
        ensures
            s@ == Seq::<T>::empty(),
            s.wf(),
            s.is_strict(),
    {
        OrdSet(Vec::new())
    }

    /// An empty set with room for at least `capacity` elements.
    pub fn with_capacity(capacity: usize) -> (s: OrdSet<T>)
        ensures
            s@ == Seq::<T>::empty(),
            s.wf(),
            s.is_strict(),
    {
        OrdSet(Vec::with_capacity(capacity))
    }

    /// The number of elements.
    pub fn len(&self) -> (n: usize)
        ensures
            n == self@.len(),
    {
        self.0.len()
    }

    /// The number of elements that the set can hold without allocating again.
    pub fn capacity(&self) -> (n: usize)
        ensures
            n >= self@.len(),
    {
        vec_capacity(&self.0)
    }

    /// Tells whether the set holds no element.
    pub fn is_empty(&self) -> (empty: bool)
        ensures
            empty == (self@.len() == 0),
    {
        self.0.is_empty()
    }

    /// Tells whether some element of the set takes the place of `elem`.
    pub fn contains(&self, elem: &T) -> (found: bool)
        requires
            is_total_order::<T>(),
            self.wf(),
        ensures
            found == occurs(self@, *elem),
    {
        binary_search(self.0.as_slice(), elem).is_ok()
    }

    /// Puts `elem` into the set. An element that takes the same place is
    /// replaced and handed back.
    pub fn insert(&mut self, elem: T) -> (previous: Option<T>)
        requires
            is_total_order::<T>(),
            old(self).wf(),
        ensures
            final(self)@ == inserted(old(self)@, elem),
            previous == replaced(old(self)@, elem),
            final(self).wf(),
            old(self).is_strict() ==> final(self).is_strict(),
    {
        proof {
            lemma_inserted_sorted(self.0@, elem);
        }
        match binary_search(self.0.as_slice(), &elem) {
            Ok(index) => {
                let mut elem = elem;
                self.0.set_and_swap(index, &mut elem);
                Some(elem)
            },
            Err(index) => {
                self.0.insert(index, elem);
                None
            },
        }
    }

    /// Takes the element in the place of `elem` out of the set, and tells
    /// whether there was one.
    pub fn remove(&mut self, elem: &T) -> (found: bool)
        requires
            is_total_order::<T>(),
            old(self).wf(),
        ensures
            final(self)@ == removed(old(self)@, *elem),
            found == occurs(old(self)@, *elem),
            final(self).wf(),
            old(self).is_strict() ==> final(self).is_strict(),
    {
        proof {
            lemma_removed_sorted(self.0@, *elem);
        }
        if let Ok(index) = binary_search(self.0.as_slice(), elem) {
            self.0.remove(index);
            true
        } else {
            false
        }
    }

    /// Takes every element out. The room that the set has allocated stays.
    pub fn clear(&mut self)
        ensures
            final(self)@ == Seq::<T>::empty(),
            final(self).wf(),
            final(self).is_strict(),
    {
        self.0.clear();
    }

    /// The elements, in order.
    pub fn as_slice(&self) -> (items: &[T])
        ensures
            items@ == self@,
    {
        self.0.as_slice()
    }

    /// Asks `f` about each element in turn, the first of them first, and takes
    /// out those for which it answers `false`. The others keep their order.
    pub fn retain<F>(&mut self, f: F) where F: FnMut(&T) -> bool
        requires
            forall|i: int|
                0 <= i < old(self)@.len() ==> call_requires(f, (&#[trigger] old(self)@[i],)),
        ensures
            exists|keep: Seq<bool>|
                #[trigger] answers_of(f, old(self)@, keep) && final(self)@ == selected(
                    old(self)@,
                    keep,
                ),
            forall|pred: spec_fn(T) -> bool|
                decides(f, old(self)@, pred) ==> final(self)@ == #[trigger] old(self)@.filter(
                    pred,
                ),
            old(self).wf() ==> final(self).wf(),
            old(self).is_strict() ==> final(self).is_strict(),
    {
        let ghost all = self@;
        let mut items = Vec::with_capacity(vec_capacity(&self.0));
        core::mem::swap(&mut items, &mut self.0);
        let iter = items.into_iter();
        assert(iter.remaining() == all);
        let Ghost(keep) = keep_from(&mut self.0, iter, f);
        proof {
            assert(answers_of(f, all, keep) && self.0@ == selected(all, keep));
            lemma_selected_sorted(all, keep);
            assert forall|pred: spec_fn(T) -> bool| decides(f, all, pred) implies self.0@
                == #[trigger] all.filter(pred) by {
                lemma_selected_is_filter(all, keep, pred);
            }
        }
    }

    /// Puts the elements that `iter` gives into the set one by one, and tells
    /// whether one of them found its place free.
    pub fn append<I>(&mut self, iter: I) -> (changed: bool) where I: Iterator<Item = T>
        requires
            is_total_order::<T>(),
            old(self).wf(),
            iter.obeys_prophetic_iter_laws(),
            iter.decrease() is Some,
        ensures
            final(self)@ == appended(old(self)@, iter.remaining()),
            changed == grows(old(self)@, iter.remaining()),
            final(self).wf(),
            old(self).is_strict() ==> final(self).is_strict(),
    {
        let mut iter = iter;
        let ghost start = self.0@;
        let ghost all = iter.remaining();
        let ghost mut done: int = 0;
        let mut changed = false;
        loop
            invariant
                is_total_order::<T>(),
                iter.obeys_prophetic_iter_laws(),
                iter.decrease() is Some,
                0 <= done <= all.len(),
                iter.remaining() == all.skip(done),
                self.0@ == appended(start, all.take(done)),
                changed == grows(start, all.take(done)),
                sorted(start),
            ensures
                done == all.len(),
            decreases iter.decrease()->0,
        {
            match iter.next() {
                Some(elem) => {
                    proof {
                        assert(elem == all[done]);
                        assert(all.take(done + 1).drop_last() == all.take(done));
                        assert(all.skip(done).drop_first() == all.skip(done + 1));
                        lemma_appended_sorted(start, all.take(done));
                        done = done + 1;
                    }
                    if self.insert(elem).is_none() {
                        changed = true;
                    }
                },
                None => {
                    break ;
                },
            }
        }
        proof {
            assert(all.take(all.len() as int) == all);
            lemma_appended_sorted(start, all);
        }
        changed
    }

    /// The set of the elements of `elems`, which may come in any order.
    ///
    /// The elements are sorted, and all of them are kept: where `elems` holds
    /// elements that take the same place, so does the set, which is then well
    /// formed but not strict. Among such elements the order of `elems` stays.
    pub fn from_unsorted(elems: Vec<T>) -> (s: OrdSet<T>)
        requires
            is_total_order::<T>(),
        ensures
            is_stable_sort_of(s@, elems@),
            s@.to_multiset() == elems@.to_multiset(),
            s.wf(),
            s.is_strict() <==> all_apart(elems@),
    {
        let mut elems = elems;
        let ghost given = elems@;
        sort_vec(&mut elems);
        proof {
            lemma_stable_sort_sorted(elems@, given);
            lemma_stable_sort_strict(elems@, given);
        }
        OrdSet(elems)
    }
}

impl<T: Ord> std::ops::Deref for OrdSet<T> {
    type Target = [T];

    /// The elements, in order.
    fn deref(&self) -> (items: &[T])
        ensures
            items@ == self@,
    {
        self.0.as_slice()
    }
}

impl<T: Ord> IntoIterator for OrdSet<T> {
    type Item = T;

    type IntoIter = std::vec::IntoIter<T>;

    /// Gives the set up for its elements, which come in order.
    fn into_iter(self) -> (iter: std::vec::IntoIter<T>)
        ensures
            iter.remaining() == self@,
            iter.obeys_prophetic_iter_laws(),
            iter.decrease() is Some,
    {
        self.0.into_iter()
    }
}

} // verus!
