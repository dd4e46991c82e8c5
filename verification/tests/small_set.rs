use amba::SmallU64Set;

#[test]
fn insert_reports_newness() {
    let mut s = SmallU64Set::new();
    assert!(s.insert(7));
    assert!(!s.insert(7));
    assert!(s.insert(9));
    assert_eq!(s.len(), 2);
}

#[test]
fn contains_tracks_inserts() {
    let mut s = SmallU64Set::new();
    assert!(!s.contains(1));
    s.insert(1);
    s.insert(u64::MAX);
    assert!(s.contains(1));
    assert!(s.contains(u64::MAX));
    assert!(!s.contains(2));
}

#[test]
fn grows_past_small_capacity() {
    let mut s = SmallU64Set::new();
    for v in 0..20u64 {
        assert!(s.insert(v * 3));
    }
    assert_eq!(s.len(), 20);
    for v in 0..20u64 {
        assert!(s.contains(v * 3));
        assert!(!s.insert(v * 3));
    }
    assert_eq!(s.len(), 20);
}

#[test]
fn get_walks_insertion_order() {
    let mut s = SmallU64Set::new();
    s.insert(5);
    s.insert(3);
    s.insert(8);
    assert_eq!(s.get(0), 5);
    assert_eq!(s.get(1), 3);
    assert_eq!(s.get(2), 8);
}
