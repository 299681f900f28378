use aava::util::small_hash_map::{SetLike, SmallMap, SmallSet};

#[test]
fn insert_rejects_duplicate_keys() {
    let mut m: SmallMap<usize, u32> = SmallMap::new();
    assert!(m.insert(1, 10));
    assert!(m.insert(2, 20));
    assert!(!m.insert(1, 30));
    assert_eq!(m.0.len(), 2);
}

#[test]
fn set_like_dedups() {
    let mut s: SmallSet<(usize, usize)> = SmallSet::with_capacity(4);
    assert!(s.insert((0, 1)));
    assert!(s.insert((1, 0)));
    assert!(!s.insert((0, 1)));
    assert_eq!(s.0 .0.len(), 2);
}
