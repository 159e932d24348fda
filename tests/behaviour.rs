use nanoset::{Comparison, Element, FrozenSet, NanoSet, PicoSet, SetError};

fn sorted<const C: bool>(s: &nanoset::CompactSet<i64, C>) -> Vec<i64> {
    let mut v = s.to_vec();
    v.sort();
    v
}

#[test]
fn adding_twice_equals_adding_once() {
    let mut once = PicoSet::<i64>::from_items(&[4, 5]);
    let mut twice = PicoSet::<i64>::from_items(&[4, 5]);
    once.add(9);
    twice.add(9);
    twice.add(9);
    assert_eq!(once.len(), 3);
    assert_eq!(twice.len(), 3);
    assert!(once.compare(&twice, Comparison::Eq));
}

#[test]
fn discarding_an_absent_element_changes_nothing() {
    let mut s = NanoSet::<i64>::from_items(&[1, 2]);
    s.discard(&7);
    assert_eq!(sorted(&s), vec![1, 2]);
    let mut e = NanoSet::<i64>::new();
    e.discard(&7);
    assert!(!e.is_allocated());
}

#[test]
fn snapshot_and_restore_round_trip() {
    let empty = NanoSet::<i64>::new();
    let state = empty.snapshot();
    assert!(state.is_none());
    let mut back = NanoSet::<i64>::from_items(&[8]);
    back.restore(state);
    assert!(!back.is_allocated());
    assert!(back.compare(&empty, Comparison::Eq));

    let full = NanoSet::<i64>::from_items(&[1, 2, 3]);
    let state = full.snapshot();
    assert!(state.is_some());
    let mut back = NanoSet::<i64>::new();
    back.restore(state);
    assert_eq!(sorted(&back), vec![1, 2, 3]);
    assert!(back.compare(&full, Comparison::Eq));
}

#[test]
fn restoring_an_empty_state_leaves_no_storage() {
    let mut s = NanoSet::<i64>::from_items(&[3]);
    s.restore(Some(Vec::new()));
    assert!(!s.is_allocated());
    assert_eq!(s.len(), 0);
}

#[test]
fn reduce_gives_the_constructor_argument() {
    let empty = PicoSet::<i64>::new();
    assert_eq!(empty.reduce().len(), 0);
    let s = PicoSet::<i64>::from_items(&[5, 6]);
    let payload = s.reduce();
    assert_eq!(payload.len(), 1);
    let rebuilt = PicoSet::<i64>::from_items(&payload[0]);
    assert!(rebuilt.compare(&s, Comparison::Eq));
}

#[test]
fn union_and_intersection_commute_and_associate() {
    let a = NanoSet::<i64>::from_items(&[1, 2, 3]);
    let b = NanoSet::<i64>::from_items(&[3, 4]);
    let c = NanoSet::<i64>::from_items(&[3, 5, 1]);
    let ab = a.union(&[b.copy()]);
    let ba = b.union(&[a.copy()]);
    assert!(ab.compare(&ba, Comparison::Eq));
    let left = ab.union(&[c.copy()]);
    let right = a.union(&[b.union(&[c.copy()])]);
    assert!(left.compare(&right, Comparison::Eq));
    assert_eq!(sorted(&left), vec![1, 2, 3, 4, 5]);

    let iab = a.intersection(&[b.copy()]);
    let iba = b.intersection(&[a.copy()]);
    assert!(iab.compare(&iba, Comparison::Eq));
    let ileft = iab.intersection(&[c.copy()]);
    let iright = a.intersection(&[b.intersection(&[c.copy()])]);
    assert!(ileft.compare(&iright, Comparison::Eq));
    assert_eq!(sorted(&ileft), vec![3]);
}

#[test]
fn a_set_cancels_itself() {
    let a = NanoSet::<i64>::from_items(&[-1, 0, 1]);
    let d = a.difference(&[a.copy()]);
    assert_eq!(d.len(), 0);
    assert!(!d.is_allocated());
    let x = a.symmetric_difference(&a);
    assert_eq!(x.len(), 0);
    assert!(!x.is_allocated());
    assert!(a.issubset(&a));
    assert!(a.issuperset(&a));
}

#[test]
fn empty_set_is_the_bottom_element() {
    let e = NanoSet::<i64>::new();
    let s = NanoSet::<i64>::from_items(&[1, 2]);
    assert!(e.issubset(&s));
    assert!(e.isdisjoint(&s));
    assert!(!e.issuperset(&s));
    assert!(e.issuperset(&NanoSet::<i64>::new()));
    assert!(e.compare(&s, Comparison::Lt));
    assert!(e.compare(&s, Comparison::Le));
    assert!(e.compare(&s, Comparison::Ne));
    assert!(!e.compare(&s, Comparison::Eq));
    assert!(!e.compare(&s, Comparison::Gt));
    assert!(!e.compare(&s, Comparison::Ge));
    assert!(s.compare(&e, Comparison::Gt));
}

#[test]
fn empty_sets_are_equal_whatever_their_history() {
    let fresh = NanoSet::<i64>::new();
    let mut drained = NanoSet::<i64>::from_items(&[1, 2]);
    drained.discard(&1);
    drained.remove(&2).unwrap();
    let mut cleared = NanoSet::<i64>::from_items(&[9]);
    cleared.clear();
    let mut emptied = NanoSet::<i64>::from_items(&[4, 5]);
    emptied.intersection_update(&[NanoSet::<i64>::from_items(&[6])]);
    for s in [&drained, &cleared, &emptied] {
        assert!(!s.is_allocated());
        assert!(s.compare(&fresh, Comparison::Eq));
        assert!(s.compare(&fresh, Comparison::Le));
        assert!(s.compare(&fresh, Comparison::Ge));
        assert!(!s.compare(&fresh, Comparison::Lt));
        assert!(!s.compare(&fresh, Comparison::Gt));
    }
}

#[test]
fn strict_comparisons_between_unrelated_sets_are_false() {
    let a = PicoSet::<i64>::from_items(&[1, 2]);
    let b = PicoSet::<i64>::from_items(&[2, 3]);
    assert!(!a.compare(&b, Comparison::Lt));
    assert!(!a.compare(&b, Comparison::Gt));
    assert!(!a.compare(&b, Comparison::Le));
    assert!(!a.compare(&b, Comparison::Ge));
    assert!(a.compare(&b, Comparison::Ne));
    let c = PicoSet::<i64>::from_items(&[1, 2, 3]);
    assert!(a.compare(&c, Comparison::Lt));
    assert!(c.compare(&a, Comparison::Ge));
}

#[test]
fn updates_in_place() {
    let mut s = NanoSet::<i64>::new();
    s.update(&[NanoSet::from_items(&[1, 2]), NanoSet::from_items(&[2, 3])]);
    assert_eq!(sorted(&s), vec![1, 2, 3]);
    s.difference_update(&[NanoSet::from_items(&[1]), NanoSet::from_items(&[3])]);
    assert_eq!(sorted(&s), vec![2]);
    s.symmetric_difference_update(&NanoSet::from_items(&[2, 7]));
    assert_eq!(sorted(&s), vec![7]);
    s.symmetric_difference_update(&NanoSet::from_items(&[7]));
    assert!(!s.is_allocated());
    s.update(&[]);
    assert!(!s.is_allocated());
    let mut t = NanoSet::<i64>::from_items(&[1, 2, 3, 4]);
    t.intersection_update(&[NanoSet::from_items(&[2, 3, 4]), NanoSet::from_items(&[3, 4, 5])]);
    assert_eq!(sorted(&t), vec![3, 4]);
}

#[test]
fn algebra_with_several_or_no_operands() {
    let a = NanoSet::<i64>::from_items(&[1, 2, 3, 4]);
    let u = a.union(&[NanoSet::from_items(&[5]), NanoSet::from_items(&[6, 1])]);
    assert_eq!(sorted(&u), vec![1, 2, 3, 4, 5, 6]);
    let d = a.difference(&[NanoSet::from_items(&[1]), NanoSet::from_items(&[4, 9])]);
    assert_eq!(sorted(&d), vec![2, 3]);
    let same = a.union(&[]);
    assert!(same.compare(&a, Comparison::Eq));
    let e = NanoSet::<i64>::new();
    assert!(!e.intersection(&[a.copy()]).is_allocated());
    assert!(!e.difference(&[a.copy()]).is_allocated());
    assert!(e.union(&[a.copy()]).compare(&a, Comparison::Eq));
    assert!(e.symmetric_difference(&a).compare(&a, Comparison::Eq));
    assert!(!e.union(&[NanoSet::new()]).is_allocated());
}

#[test]
fn remove_reports_missing_elements_and_keeps_the_set() {
    let mut s = PicoSet::<i64>::from_items(&[1, 2]);
    assert!(s.remove(&1).is_ok());
    match s.remove(&1) {
        Err(SetError::NotFound(x)) => assert_eq!(x, 1),
        other => panic!("unexpected {:?}", other),
    }
    assert_eq!(sorted(&s), vec![2]);
    assert!(s.remove(&2).is_ok());
    assert!(!s.is_allocated());
}

#[test]
fn pop_drains_the_set() {
    let mut s = NanoSet::<i64>::from_items(&[10, 20, 30]);
    let mut seen = Vec::new();
    while let Ok(x) = s.pop() {
        seen.push(x);
    }
    seen.sort();
    assert_eq!(seen, vec![10, 20, 30]);
    assert!(!s.is_allocated());
    assert!(matches!(s.pop(), Err(SetError::EmptyCollection)));
}

#[test]
fn iteration_restarts_and_is_empty_for_empty_sets() {
    let e = NanoSet::<i64>::new();
    assert!(e.to_vec().is_empty());
    assert!(e.to_vec().is_empty());
    let s = NanoSet::<i64>::from_items(&[3, 1, 3, 2]);
    assert_eq!(s.to_vec(), vec![3, 1, 2]);
    assert_eq!(s.to_vec(), vec![3, 1, 2]);
}

#[test]
fn rendering_follows_insertion_order() {
    let s = NanoSet::<i64>::from_items(&[3, -12, 40]);
    assert_eq!(s.repr(), "{3, -12, 40}");
    assert_eq!(PicoSet::<i64>::new().repr(), "set()");
    let big = NanoSet::<u64>::from_items(&[u64::MAX, 0]);
    assert_eq!(big.repr(), "{18446744073709551615, 0}");
    assert_eq!(i64::MIN.render(), "-9223372036854775808");
    assert_eq!(FrozenSet::from_items(&[7u64, 7, 8]).render(), "frozenset({7, 8})");
}

#[test]
fn membership_of_populated_sets_uses_their_elements() {
    let a = NanoSet::<u64>::from_items(&[1, 2]);
    let a_again = NanoSet::<u64>::from_items(&[2, 1]);
    let other = PicoSet::<u64>::from_items(&[3]);
    let mut b = NanoSet::<FrozenSet<u64>>::new();
    assert!(!b.contains_set(&a));
    b.add_set(&a);
    b.add_set(&a_again);
    assert_eq!(b.len(), 1);
    assert!(b.contains_set(&a_again));
    assert!(!b.contains_set(&other));
    match b.remove_set(&other) {
        Err(SetError::NotFound(f)) => assert!(f.same(&FrozenSet::from_items(&[3]))),
        other => panic!("unexpected {:?}", other),
    }
    b.discard_set(&a_again);
    assert!(!b.is_allocated());
}

#[test]
fn collector_hooks_visit_and_release_storage() {
    let mut s = NanoSet::<i64>::from_items(&[1, 2]);
    assert_eq!(s.traverse().map(|v| v.len()), Some(2));
    s.collector_clear();
    assert!(s.traverse().is_none());
    assert!(!s.is_allocated());
    s.collector_clear();
    assert!(!s.is_allocated());
    s.clear();
    assert_eq!(s.len(), 0);
}

#[test]
fn copies_are_independent() {
    let a = PicoSet::<i64>::from_items(&[1, 2]);
    let mut b = a.copy();
    b.add(3);
    assert_eq!(sorted(&a), vec![1, 2]);
    assert_eq!(sorted(&b), vec![1, 2, 3]);
    let f = a.freeze();
    assert!(f.same(&FrozenSet::from_items(&[2, 1])));
    assert!(!f.same(&FrozenSet::from_items(&[2])));
}

#[test]
fn default_is_the_empty_set() {
    let d: NanoSet<i64> = Default::default();
    assert!(!d.is_allocated());
    assert_eq!(d.len(), 0);
}

#[test]
fn many_elements_stay_findable_as_the_index_grows() {
    let mut s = NanoSet::<i64>::new();
    for i in -500..500i64 {
        s.add(i * 7);
    }
    assert_eq!(s.len(), 1000);
    for i in -500..500i64 {
        assert!(s.contains(&(i * 7)));
        assert!(!s.contains(&(i * 7 + 1)));
    }
    for i in 0..500i64 {
        s.discard(&(i * 7));
    }
    assert_eq!(s.len(), 500);
    assert!(s.contains(&-7));
    assert!(!s.contains(&7));
    let order = s.to_vec();
    assert_eq!(order[0], -3500);
    assert_eq!(order[499], -7);
}

#[test]
fn hashes_follow_the_elements() {
    assert_eq!(42u64.hash_code(), 42);
    assert_eq!((-1i64).hash_code(), u64::MAX);
    let a = FrozenSet::from_items(&[1u64, 2, 2]);
    let b = FrozenSet::from_items(&[2u64, 1]);
    assert_eq!(a.hash_code(), 2);
    assert_eq!(a.hash_code(), b.hash_code());
    assert!(a.same(&b));
    assert!(a.duplicate().same(&a));
}
