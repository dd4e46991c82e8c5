use amba::DisjointSets;

#[test]
fn make_set_hands_out_dense_ids() {
    let mut ds = DisjointSets::new();
    assert_eq!(ds.len(), 0);
    assert_eq!(ds.make_set(), 0);
    assert_eq!(ds.make_set(), 1);
    assert_eq!(ds.make_set(), 2);
    assert_eq!(ds.len(), 3);
}

#[test]
fn fresh_sets_are_disjoint() {
    let mut ds = DisjointSets::new();
    let a = ds.make_set();
    let b = ds.make_set();
    assert!(!ds.same_set(a, b));
    assert!(ds.same_set(a, a));
    assert_eq!(ds.find(a), a);
    assert_eq!(ds.find(b), b);
}

#[test]
fn union_merges_classes() {
    let mut ds = DisjointSets::new();
    for _ in 0..4 {
        ds.make_set();
    }
    ds.union(0, 1);
    assert!(ds.same_set(0, 1));
    assert!(!ds.same_set(0, 2));
    ds.union(2, 3);
    assert!(ds.same_set(2, 3));
    assert!(!ds.same_set(1, 3));
    ds.union(1, 3);
    assert!(ds.same_set(0, 2));
    assert!(ds.same_set(0, 3));
}

#[test]
fn find_is_stable_and_shared() {
    let mut ds = DisjointSets::new();
    for _ in 0..5 {
        ds.make_set();
    }
    ds.union(0, 1);
    ds.union(1, 2);
    ds.union(3, 4);
    let r = ds.find(2);
    assert_eq!(ds.find(0), r);
    assert_eq!(ds.find(1), r);
    assert_eq!(ds.find(r), r);
    assert_ne!(ds.find(3), r);
    assert_eq!(ds.find(3), ds.find(4));
}

#[test]
fn union_is_idempotent() {
    let mut ds = DisjointSets::new();
    for _ in 0..2 {
        ds.make_set();
    }
    ds.union(0, 1);
    ds.union(0, 1);
    ds.union(1, 0);
    assert!(ds.same_set(0, 1));
    assert_eq!(ds.len(), 2);
}
