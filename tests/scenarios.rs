use nanoset::{Comparison, FrozenSet, NanoSet, SetError};

fn sorted(s: &NanoSet<u64>) -> Vec<u64> {
    let mut v = s.to_vec();
    v.sort();
    v
}

#[test]
fn new_set_is_empty_and_unallocated() {
    let s = NanoSet::<u64>::new();
    assert_eq!(s.len(), 0);
    assert!(s.is_empty());
    assert!(!s.is_allocated());
    assert_eq!(s.repr(), "set()");
}

#[test]
fn duplicates_collapse_and_pop_shrinks() {
    let mut s = NanoSet::<u64>::from_items(&[1, 2, 2, 3]);
    assert_eq!(s.len(), 3);
    assert!(s.contains(&2));
    let e = s.pop().unwrap();
    assert!(e == 1 || e == 2 || e == 3);
    assert!(!s.contains(&e));
    assert_eq!(s.len(), 2);
}

#[test]
fn binary_algebra() {
    let s = NanoSet::<u64>::from_items(&[1, 2]);
    let t = NanoSet::<u64>::from_items(&[2, 3]);
    let others = [t];
    assert_eq!(sorted(&s.intersection(&others)), vec![2]);
    assert_eq!(sorted(&s.union(&others)), vec![1, 2, 3]);
    assert_eq!(sorted(&s.difference(&others)), vec![1]);
    assert_eq!(sorted(&s.symmetric_difference(&others[0])), vec![1, 3]);
    let expected = NanoSet::<u64>::from_items(&[2]);
    assert!(s.intersection(&others).compare(&expected, Comparison::Eq));
}

#[test]
fn errors_on_empty_set() {
    let mut s = NanoSet::<u64>::new();
    match s.remove(&1) {
        Err(SetError::NotFound(x)) => assert_eq!(x, 1),
        other => panic!("unexpected {:?}", other),
    }
    assert!(matches!(s.pop(), Err(SetError::EmptyCollection)));
    assert!(!s.is_allocated());
}

#[test]
fn discarding_last_element_releases_storage() {
    let mut s = NanoSet::<u64>::from_items(&[1]);
    assert!(s.is_allocated());
    s.discard(&1);
    assert_eq!(s.len(), 0);
    assert!(!s.is_allocated());
}

#[test]
fn empty_set_is_found_through_its_frozen_snapshot() {
    let a = NanoSet::<u64>::new();
    let mut b = NanoSet::<FrozenSet<u64>>::new();
    b.add_set(&a);
    assert!(b.contains_set(&a));
    assert_eq!(b.len(), 1);
    assert_eq!(b.repr(), "{frozenset()}");
}
