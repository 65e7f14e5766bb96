use dfa_generator::state_set::StateSet;

#[test]
fn a_new_set_is_empty() {
    let s = StateSet::new(5);
    assert_eq!(s.universe(), 5);
    assert!(s.is_empty());
    for i in 0..8 {
        assert!(!s.contains(i));
    }
    assert!(StateSet::new(0).is_empty());
}

#[test]
fn insert_adds_a_member_once() {
    let mut s = StateSet::new(4);
    assert!(s.insert(2));
    assert!(s.contains(2));
    assert!(!s.insert(2));
    assert!(s.insert(0));
    assert!(!s.is_empty());
    assert!(!s.contains(1));
    assert_eq!(s.universe(), 4);
}

#[test]
fn insert_passes_over_an_index_beyond_the_bound() {
    let mut s = StateSet::new(3);
    assert!(!s.insert(3));
    assert!(!s.insert(100));
    assert!(s.is_empty());
    assert_eq!(s.universe(), 3);
}

#[test]
fn equal_sets_have_the_same_members() {
    let mut a = StateSet::new(4);
    let mut b = StateSet::new(4);
    assert!(a.equals(&b));
    a.insert(1);
    assert!(!a.equals(&b));
    assert!(!b.equals(&a));
    b.insert(3);
    assert!(!a.equals(&b));
    a.insert(3);
    b.insert(1);
    assert!(a.equals(&b));
}

#[test]
fn sets_with_other_bounds_compare_by_their_members() {
    let mut a = StateSet::new(2);
    let mut b = StateSet::new(7);
    a.insert(1);
    b.insert(1);
    assert!(a.equals(&b));
    assert!(b.equals(&a));
    b.insert(5);
    assert!(!a.equals(&b));
    assert!(!b.equals(&a));
}

#[test]
fn a_duplicate_is_equal_and_apart() {
    let mut a = StateSet::new(3);
    a.insert(0);
    let mut b = a.duplicate();
    assert!(a.equals(&b));
    assert_eq!(b.universe(), 3);
    b.insert(2);
    assert!(!a.contains(2));
    assert!(!a.equals(&b));
}
