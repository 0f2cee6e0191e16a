use collections::OrdSet;
use std::cmp::Ordering;

/// An element whose order looks at `key` alone.
#[derive(Clone, Debug)]
struct Tagged {
    key: u32,
    tag: &'static str,
}

impl PartialEq for Tagged {
    fn eq(&self, other: &Tagged) -> bool {
        self.key == other.key
    }
}

impl Eq for Tagged {}

impl PartialOrd for Tagged {
    fn partial_cmp(&self, other: &Tagged) -> Option<Ordering> {
        Some(self.cmp(other))
    }
}

impl Ord for Tagged {
    fn cmp(&self, other: &Tagged) -> Ordering {
        self.key.cmp(&other.key)
    }
}

fn tagged(key: u32, tag: &'static str) -> Tagged {
    Tagged { key, tag }
}

fn tags(set: &OrdSet<Tagged>) -> Vec<(u32, &'static str)> {
    set.as_slice().iter().map(|t| (t.key, t.tag)).collect()
}

fn set_of(items: &[i32]) -> OrdSet<i32> {
    let mut set = OrdSet::new();
    for &i in items {
        set.insert(i);
    }
    set
}

#[test]
fn insert_should_return_previous_element() {
    let mut set = OrdSet::new();
    set.insert(4);
    assert_eq!(set.insert(4), Some(4));
}

#[test]
fn elements_must_be_ordered() {
    let mut set = OrdSet::new();
    set.insert(4);
    set.insert(2);
    set.insert(1);
    set.insert(6);
    assert_eq!(set.as_slice(), &[1, 2, 4, 6]);
}

#[test]
fn new_set_is_empty() {
    let set: OrdSet<i32> = OrdSet::new();
    assert!(set.is_empty());
    assert_eq!(set.len(), 0);
    assert_eq!(set.as_slice(), &[] as &[i32]);
    assert!(!set.contains(&0));
}

#[test]
fn with_capacity_reserves_without_elements() {
    let set: OrdSet<u64> = OrdSet::with_capacity(10);
    assert!(set.is_empty());
    assert_eq!(set.len(), 0);
    assert!(set.capacity() >= 10);
}

#[test]
fn capacity_is_at_least_len() {
    let mut set = OrdSet::new();
    for i in 0..100 {
        set.insert(i);
        assert!(set.capacity() >= set.len());
    }
    assert_eq!(set.len(), 100);
}

#[test]
fn insert_reports_no_previous_element_for_a_new_one() {
    let mut set = OrdSet::new();
    assert_eq!(set.insert(4), None);
    assert_eq!(set.insert(2), None);
    assert_eq!(set.len(), 2);
}

#[test]
fn insert_scenario_keeps_length_on_replacement() {
    let mut set = OrdSet::new();
    set.insert(4);
    set.insert(2);
    set.insert(1);
    set.insert(6);
    assert_eq!(set.as_slice(), &[1, 2, 4, 6]);
    assert_eq!(set.insert(4), Some(4));
    assert_eq!(set.len(), 4);
    assert_eq!(set.as_slice(), &[1, 2, 4, 6]);
}

#[test]
fn insert_at_both_ends_and_in_the_middle() {
    let mut set = set_of(&[10, 20, 30]);
    set.insert(5);
    assert_eq!(set.as_slice(), &[5, 10, 20, 30]);
    set.insert(35);
    assert_eq!(set.as_slice(), &[5, 10, 20, 30, 35]);
    set.insert(25);
    assert_eq!(set.as_slice(), &[5, 10, 20, 25, 30, 35]);
}

#[test]
fn insert_twice_grows_by_one_and_returns_the_first() {
    let mut set = set_of(&[1, 3, 5]);
    let before = set.len();
    assert_eq!(set.insert(4), None);
    assert_eq!(set.insert(4), Some(4));
    assert_eq!(set.len(), before + 1);
    assert_eq!(set.as_slice(), &[1, 3, 4, 5]);
}

#[test]
fn insert_replaces_an_element_in_the_same_place() {
    let mut set = OrdSet::new();
    assert!(set.insert(tagged(2, "two")).is_none());
    assert!(set.insert(tagged(1, "one")).is_none());
    let previous = set.insert(tagged(2, "zwei")).unwrap();
    assert_eq!(previous.tag, "two");
    assert_eq!(tags(&set), vec![(1, "one"), (2, "zwei")]);
}

#[test]
fn insert_then_remove_restores_the_sequence() {
    let mut set = set_of(&[1, 2, 4, 6]);
    let before = set.clone();
    assert_eq!(set.insert(3), None);
    assert_eq!(set.as_slice(), &[1, 2, 3, 4, 6]);
    assert!(set.remove(&3));
    assert_eq!(set.as_slice(), before.as_slice());
    assert_eq!(set, before);
}

#[test]
fn remove_present_and_absent() {
    let mut set = set_of(&[1, 2, 4, 6]);
    assert!(set.remove(&2));
    assert_eq!(set.as_slice(), &[1, 4, 6]);
    assert!(!set.remove(&2));
    assert!(!set.remove(&5));
    assert_eq!(set.as_slice(), &[1, 4, 6]);
    assert!(set.remove(&1));
    assert!(set.remove(&6));
    assert!(set.remove(&4));
    assert!(set.is_empty());
    assert!(!set.remove(&4));
}

#[test]
fn sequence_stays_strictly_increasing() {
    let mut set = OrdSet::new();
    let steps: [(bool, i32); 12] = [
        (true, 7),
        (true, 3),
        (true, 9),
        (true, 3),
        (false, 7),
        (true, 1),
        (false, 4),
        (true, 8),
        (true, 2),
        (false, 1),
        (true, 9),
        (false, 9),
    ];
    for (put, value) in steps {
        if put {
            set.insert(value);
        } else {
            set.remove(&value);
        }
        assert!(set.as_slice().windows(2).all(|w| w[0] < w[1]));
    }
    assert_eq!(set.as_slice(), &[2, 3, 8]);
}

#[test]
fn contains_agrees_with_the_slice() {
    let set = set_of(&[1, 2, 4, 6]);
    for e in -1..9 {
        assert_eq!(set.contains(&e), set.as_slice().iter().any(|x| *x == e));
    }
    assert!(set.contains(&4));
    assert!(!set.contains(&5));
}

#[test]
fn clear_empties_and_keeps_capacity() {
    let mut set = set_of(&[1, 2, 4, 6]);
    let capacity = set.capacity();
    set.clear();
    assert!(set.is_empty());
    assert_eq!(set.len(), 0);
    assert_eq!(set.capacity(), capacity);
    assert_eq!(set.insert(3), None);
    assert_eq!(set.as_slice(), &[3]);
}

#[test]
fn retain_filters_in_order() {
    let mut set = set_of(&[1, 2, 3, 4, 5, 6, 7]);
    set.retain(|x| x % 2 == 1);
    assert_eq!(set.as_slice(), &[1, 3, 5, 7]);
    let expected: Vec<i32> = [1, 2, 3, 4, 5, 6, 7].iter().copied().filter(|x| x % 2 == 1).collect();
    assert_eq!(set.as_slice(), expected.as_slice());
    set.retain(|_| true);
    assert_eq!(set.as_slice(), &[1, 3, 5, 7]);
    set.retain(|_| false);
    assert!(set.is_empty());
}

#[test]
fn retain_asks_about_each_element_once_in_order() {
    let mut set = set_of(&[5, 1, 4, 2, 3]);
    let mut asked = Vec::new();
    set.retain(|x| {
        asked.push(*x);
        *x != 3
    });
    assert_eq!(asked, vec![1, 2, 3, 4, 5]);
    assert_eq!(set.as_slice(), &[1, 2, 4, 5]);
}

#[test]
fn retain_keeps_capacity() {
    let mut set = OrdSet::with_capacity(64);
    for i in 0..10 {
        set.insert(i);
    }
    set.retain(|x| *x < 3);
    assert_eq!(set.as_slice(), &[0, 1, 2]);
    assert!(set.capacity() >= 64);
}

#[test]
fn append_adds_new_elements() {
    let mut set = set_of(&[1, 2, 4, 6]);
    assert!(set.append(vec![1, 1, 5].into_iter()));
    assert_eq!(set.as_slice(), &[1, 2, 4, 5, 6]);
}

#[test]
fn append_reports_no_change_when_everything_was_present() {
    let mut set = set_of(&[1, 2, 4, 6]);
    assert!(!set.append(vec![6, 1, 1].into_iter()));
    assert_eq!(set.as_slice(), &[1, 2, 4, 6]);
    assert!(!set.append(Vec::new().into_iter()));
    assert_eq!(set.as_slice(), &[1, 2, 4, 6]);
}

#[test]
fn append_is_repeated_insert() {
    let items = vec![9, 3, 3, 7, 1, 9];
    let mut appended = set_of(&[2, 3]);
    let mut inserted = set_of(&[2, 3]);
    let changed = appended.append(items.clone().into_iter());
    let mut any_new = false;
    for i in items {
        any_new |= inserted.insert(i).is_none();
    }
    assert_eq!(changed, any_new);
    assert!(changed);
    assert_eq!(appended, inserted);
    assert_eq!(appended.as_slice(), &[1, 2, 3, 7, 9]);
}

#[test]
fn append_replaces_with_the_last_of_equal_elements() {
    let mut set = OrdSet::new();
    set.insert(tagged(1, "old"));
    assert!(!set.append(vec![tagged(1, "first"), tagged(1, "second")].into_iter()));
    assert_eq!(tags(&set), vec![(1, "second")]);
}

#[test]
fn from_unsorted_sorts() {
    let set = OrdSet::from_unsorted(vec![4, 2, 1, 6]);
    assert_eq!(set.as_slice(), &[1, 2, 4, 6]);
}

#[test]
fn from_unsorted_takes_an_empty_sequence() {
    let set: OrdSet<i32> = OrdSet::from_unsorted(Vec::new());
    assert!(set.is_empty());
}

#[test]
fn from_unsorted_leaves_an_ordered_sequence_as_it_is() {
    let set = set_of(&[6, 4, 1, 2]);
    let again = OrdSet::from_unsorted(set.as_slice().to_vec());
    assert_eq!(again, set);
}

#[test]
fn from_unsorted_keeps_equal_elements_in_their_order() {
    let set = OrdSet::from_unsorted(vec![
        tagged(2, "a"),
        tagged(1, "b"),
        tagged(2, "c"),
        tagged(1, "d"),
        tagged(0, "e"),
    ]);
    assert_eq!(tags(&set), vec![(0, "e"), (1, "b"), (1, "d"), (2, "a"), (2, "c")]);
    assert_eq!(set.len(), 5);
}

#[test]
fn operations_on_a_set_with_equal_elements_act_on_the_first() {
    let mut set = OrdSet::from_unsorted(vec![tagged(1, "a"), tagged(1, "b"), tagged(0, "z")]);
    assert!(set.contains(&tagged(1, "?")));
    let previous = set.insert(tagged(1, "new")).unwrap();
    assert_eq!(previous.tag, "a");
    assert_eq!(tags(&set), vec![(0, "z"), (1, "new"), (1, "b")]);
    assert!(set.remove(&tagged(1, "?")));
    assert_eq!(tags(&set), vec![(0, "z"), (1, "b")]);
}

#[test]
fn deref_gives_the_slice() {
    let set = set_of(&[3, 1, 2]);
    assert_eq!(&*set, &[1, 2, 3]);
    assert_eq!(set.first(), Some(&1));
    assert_eq!(set[2], 3);
    assert_eq!(set.iter().sum::<i32>(), 6);
}

#[test]
fn into_iter_gives_the_elements_in_order() {
    let set = set_of(&[3, 1, 2]);
    let items: Vec<i32> = set.into_iter().collect();
    assert_eq!(items, vec![1, 2, 3]);
}

#[test]
fn sets_compare_by_their_sequences() {
    let a = set_of(&[1, 2, 3]);
    let b = set_of(&[3, 2, 1]);
    let c = set_of(&[1, 2, 4]);
    let d = set_of(&[1, 2]);
    assert_eq!(a, b);
    assert_ne!(a, c);
    assert!(a < c);
    assert!(d < a);
    assert_eq!(a.cmp(&b), Ordering::Equal);
    assert_eq!(c.cmp(&a), Ordering::Greater);
    assert_eq!(a.clone(), a);
}

#[test]
fn works_with_owned_strings() {
    let mut set = OrdSet::new();
    set.insert(String::from("pear"));
    set.insert(String::from("apple"));
    set.insert(String::from("fig"));
    assert_eq!(set.insert(String::from("fig")), Some(String::from("fig")));
    assert_eq!(set.as_slice(), &["apple", "fig", "pear"]);
    assert!(set.contains(&String::from("apple")));
    assert!(set.remove(&String::from("apple")));
    assert_eq!(set.len(), 2);
}
