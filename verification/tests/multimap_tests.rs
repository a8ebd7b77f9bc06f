use netmap::MultiMap;

#[test]
fn multi_key_aliasing() {
    let mut m: MultiMap<String> = MultiMap::new();
    m.insert(&vec![1, 2], String::from("record"));
    assert_eq!(m.index_of(1), m.index_of(2));
    assert_eq!(m.get(1).unwrap(), "record");
    assert_eq!(m.get(2).unwrap(), "record");
    // a mutation through one key is visible through the other
    if let Some(v) = m.get_mut(1) {
        v.push_str(" changed");
    }
    assert_eq!(m.get(2).unwrap(), "record changed");
}

#[test]
fn later_insertion_shadows_shared_key() {
    let mut m: MultiMap<&'static str> = MultiMap::new();
    m.insert(&vec![1], "first");
    m.insert(&vec![1, 2], "second");
    assert_eq!(*m.get(1).unwrap(), "second");
    assert_eq!(*m.get(2).unwrap(), "second");
    // both records still exist under their own identities
    assert_eq!(m.values().len(), 2);
}

#[test]
fn get_unknown_key_is_none() {
    let mut m: MultiMap<u32> = MultiMap::new();
    m.insert(&vec![9], 0);
    assert!(m.get(8).is_none());
    assert!(m.contains_key(9));
    assert!(!m.contains_key(8));
}

#[test]
fn pairwise_visitation_counts() {
    let mut m: MultiMap<u32> = MultiMap::new();
    for i in 0..4u32 {
        m.insert(&vec![100 + i as u64], i);
    }
    let pairs = m.visit_pairs();
    // exactly n*(n-1)/2 visits for n distinct records
    assert_eq!(pairs.len(), 6);
    for &(a, b) in &pairs {
        assert_ne!(a, b, "a record must never be paired with itself");
        assert!(a < 4 && b < 4);
    }
    // each unordered pair exactly once
    for x in 0..4usize {
        for y in 0..x {
            let hits = pairs
                .iter()
                .filter(|&&(a, b)| (a, b) == (x, y) || (a, b) == (y, x))
                .count();
            assert_eq!(hits, 1);
        }
    }
}

#[test]
fn pairwise_visitation_small_collections() {
    let m: MultiMap<u32> = MultiMap::new();
    assert_eq!(m.visit_pairs().len(), 0);
    let mut m: MultiMap<u32> = MultiMap::new();
    m.insert(&vec![1], 7);
    assert_eq!(m.visit_pairs().len(), 0);
}

#[test]
fn default_is_empty() {
    let m: MultiMap<u32> = MultiMap::default();
    assert_eq!(m.values().len(), 0);
}
