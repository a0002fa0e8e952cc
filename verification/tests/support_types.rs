use sparkle::bitset::BitSet;
use sparkle::strset::NameSet;
use sparkle::vecmap::VecMap;

#[test]
fn bitset_insert_remove_contains() {
    let mut s = BitSet::new();
    assert!(s.is_empty());
    s.insert(3);
    s.insert(70);
    assert!(s.contains(3));
    assert!(s.contains(70));
    assert!(!s.contains(4));
    s.remove(3);
    assert!(!s.contains(3));
    assert!(!s.is_empty());
    s.clear();
    assert!(s.is_empty());
}

#[test]
fn bitset_subset_and_disjoint() {
    let mut a = BitSet::new();
    let mut b = BitSet::new();
    a.insert(1);
    a.insert(2);
    b.insert(1);
    b.insert(2);
    b.insert(9);
    assert!(a.is_subset(&b));
    assert!(!b.is_subset(&a));
    assert!(!a.is_disjoint(&b));

    let mut c = BitSet::new();
    c.insert(5);
    assert!(a.is_disjoint(&c));
    assert!(BitSet::new().is_subset(&a));
    assert!(BitSet::new().is_disjoint(&a));
}

#[test]
fn bitset_indices_are_sorted() {
    let mut s = BitSet::new();
    s.insert(9);
    s.insert(2);
    s.insert(5);
    assert_eq!(s.to_indices(), vec![2, 5, 9]);
}

#[test]
fn nameset_dedups_and_removes() {
    let mut s = NameSet::new();
    s.insert("alpha");
    s.insert("beta");
    s.insert("alpha");
    assert_eq!(s.len(), 2);
    assert!(s.contains("alpha"));
    assert!(s.contains("beta"));
    s.remove("alpha");
    assert!(!s.contains("alpha"));
    assert_eq!(s.len(), 1);
    s.clear();
    assert_eq!(s.len(), 0);
}

#[test]
fn vecmap_round_trip() {
    let mut m: VecMap<&str> = VecMap::new();
    assert!(!m.contains_key(4));
    m.insert(4, "four");
    m.insert(0, "zero");
    assert_eq!(m.get(4), Some(&"four"));
    assert_eq!(m.get(1), None);
    *m.get_mut(4) = "vier";
    assert_eq!(m.get(4), Some(&"vier"));
    assert_eq!(m.remove(4), Some("vier"));
    assert_eq!(m.remove(4), None);
    assert!(m.contains_key(0));
}
