use collections::OrdSet;
use std::cmp::Ordering;

fn set_from(items: &[u8]) -> OrdSet<u8> {
    let mut set = OrdSet::new();
    for &i in items {
        set.insert(i);
    }
    set
}

#[test]
fn equal_sets_hold_equal_sequences() {
    assert!(set_from(&[]) == set_from(&[]));
    assert!(set_from(&[1, 2, 3]) == set_from(&[2, 3, 1, 2]));
    assert!(set_from(&[1, 2, 3]) != set_from(&[1, 2]));
    assert!(set_from(&[1, 2]) != set_from(&[1, 2, 3]));
    assert!(set_from(&[1, 2, 3]) != set_from(&[1, 2, 4]));
    assert!(set_from(&[0, 2, 3]) != set_from(&[1, 2, 3]));
}

#[test]
fn the_first_difference_decides_the_order() {
    assert_eq!(set_from(&[1, 2, 3]).partial_cmp(&set_from(&[1, 2, 4])), Some(Ordering::Less));
    assert_eq!(set_from(&[1, 5]).partial_cmp(&set_from(&[1, 2, 9])), Some(Ordering::Greater));
    assert_eq!(set_from(&[9]).partial_cmp(&set_from(&[1, 2, 3])), Some(Ordering::Greater));
    assert_eq!(set_from(&[1, 2, 3]).partial_cmp(&set_from(&[3, 2, 1])), Some(Ordering::Equal));
}

#[test]
fn a_set_that_begins_another_comes_first() {
    assert_eq!(set_from(&[1, 2]).partial_cmp(&set_from(&[1, 2, 3])), Some(Ordering::Less));
    assert_eq!(set_from(&[1, 2, 3]).partial_cmp(&set_from(&[1, 2])), Some(Ordering::Greater));
    assert_eq!(set_from(&[]).partial_cmp(&set_from(&[0])), Some(Ordering::Less));
    assert_eq!(set_from(&[]).partial_cmp(&set_from(&[])), Some(Ordering::Equal));
}

#[test]
fn partial_order_and_total_order_agree() {
    let sets = [
        set_from(&[]),
        set_from(&[1]),
        set_from(&[1, 2]),
        set_from(&[1, 3]),
        set_from(&[2]),
        set_from(&[2, 3, 4]),
    ];
    for (i, a) in sets.iter().enumerate() {
        for (j, b) in sets.iter().enumerate() {
            assert_eq!(a.partial_cmp(b), Some(a.cmp(b)));
            assert_eq!(a.cmp(b), i.cmp(&j));
            assert_eq!(a == b, i == j);
            assert_eq!(a < b, i < j);
        }
    }
}
