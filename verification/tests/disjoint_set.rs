use aava::util::disjoint_set::{DisjointSet, PathCompression, SimpleDisjointSet, UndoDisjointSet};

#[test]
fn undo_union_test() {
    let mut ds = UndoDisjointSet::<PathCompression>::new(10);
    let anchor = ds.clone();
    ds.save_state();
    ds.union(0, 3);
    ds.union(2, 4);
    ds.union(0, 6);
    ds.union(9, 1);
    ds.restore_state();
    assert_eq!(ds, anchor)
}

#[test]
fn undo_find_test() {
    let ds = UndoDisjointSet::<PathCompression>::new(10);
    assert_eq!(find_test(ds.clone()), ds)
}

#[test]
fn undo_union_find_test() {
    let mut ds = UndoDisjointSet::<PathCompression>::new(10);
    let anchor = ds.clone();
    ds.save_state();
    ds.union(3, 6);
    ds.find(3);
    ds.find(6);
    ds.union(2, 4);
    ds.find(2);
    ds.find(4);
    ds.restore_state();
    assert_eq!(ds, anchor)
}

#[test]
fn undo_connected_test() {
    connected_test(UndoDisjointSet::<PathCompression>::new(10))
}

#[test]
fn simple_union_test() {
    let mut ds = SimpleDisjointSet::<PathCompression>::new(10);
    ds.union(0, 3);
    ds.union(2, 4);
    ds.union(0, 6);
    ds.union(9, 1);
    ds.union(0, 9);
}

#[test]
fn simple_find_test() {
    find_test(SimpleDisjointSet::<PathCompression>::new(10));
}

#[test]
fn simple_connected_test() {
    connected_test(SimpleDisjointSet::<PathCompression>::new(10))
}

fn find_test<D: DisjointSet>(mut ds: D) -> D {
    for i in 0..10 {
        assert_eq!(i, ds.find(i));
    }
    ds
}

fn connected_test<D: DisjointSet>(mut ds: D) {
    ds.union(3, 6);
    assert!(ds.are_connected(3, 6));
    ds.union(2, 4);
    assert!(ds.are_connected(2, 4));
    ds.union(2, 3);
    for i in (0..10).filter(|i| [2, 3, 4, 6].contains(i)) {
        for j in (0..10).filter(|i| [2, 3, 4, 6].contains(i)) {
            assert!(ds.are_connected(i, j), "{} <-> {}", i, j);
        }
    }
    for i in (0..10).filter(|i| ![2, 3, 4, 6].contains(i)) {
        for &j in &[2, 3, 4, 6] {
            if i != j {
                assert!(!ds.are_connected(i, j), "{} <-> {}", i, j);
            }
        }
    }
    for &i in &[2, 3, 4, 6] {
        for j in (0..10).filter(|i| ![2, 3, 4, 6].contains(i)) {
            if i != j {
                assert!(!ds.are_connected(i, j), "{} <-> {}", i, j);
            }
        }
    }
}
