use netmap::ExpireSet;

#[test]
fn insert_extends_expiry_forward() {
    let mut s = ExpireSet::new();
    s.insert(7, 10);
    s.insert(7, 5);
    let pairs = s.to_pairs();
    assert_eq!(pairs, vec![(7, 10)]);
    s.insert(7, 20);
    let pairs = s.to_pairs();
    assert_eq!(pairs, vec![(7, 20)]);
}

#[test]
fn expiry_is_max_of_all_inserts() {
    let mut s = ExpireSet::new();
    let expiries = [3u64, 9, 1, 9, 4];
    for e in expiries {
        s.insert(42, e);
    }
    assert_eq!(s.to_pairs(), vec![(42, 9)]);
}

#[test]
fn set_semantics_one_entry_per_item() {
    let mut s = ExpireSet::new();
    s.insert(1, 100);
    s.insert(1, 100);
    s.insert(2, 100);
    assert_eq!(s.len(), 2);
    assert!(s.contains(1));
    assert!(s.contains(2));
    assert!(!s.contains(3));
}

#[test]
fn remove_reports_presence() {
    let mut s = ExpireSet::new();
    s.insert(5, 50);
    assert!(s.remove(5));
    assert!(!s.remove(5));
    assert!(s.is_empty());
}

#[test]
fn sweep_removes_strictly_older_entries() {
    let mut s = ExpireSet::new();
    s.insert(1, 5);
    s.insert(2, 6);
    s.insert(3, 10);
    s.expire(6);
    assert!(!s.contains(1));
    // an entry due exactly at the sweep time survives
    assert!(s.contains(2));
    assert!(s.contains(3));
}

#[test]
fn sweep_is_idempotent_on_survivors() {
    let mut s = ExpireSet::new();
    s.insert(1, 5);
    s.insert(2, 8);
    s.expire(6);
    let once = {
        let mut p = s.to_pairs();
        p.sort();
        p
    };
    s.expire(6);
    let twice = {
        let mut p = s.to_pairs();
        p.sort();
        p
    };
    assert_eq!(once, twice);
    assert_eq!(once, vec![(2, 8)]);
}

#[test]
fn extend_from_merges_with_max_expiry() {
    let mut a = ExpireSet::new();
    a.insert(1, 5);
    a.insert(2, 9);
    let mut b = ExpireSet::new();
    b.insert(1, 8);
    b.insert(2, 3);
    b.insert(3, 4);
    a.extend_from(b);
    let mut pairs = a.to_pairs();
    pairs.sort();
    assert_eq!(pairs, vec![(1, 8), (2, 9), (3, 4)]);
}

#[test]
fn iter_lists_each_item_once() {
    let mut s = ExpireSet::new();
    s.insert(10, 1);
    s.insert(20, 2);
    s.insert(10, 3);
    let mut items = s.iter();
    items.sort();
    assert_eq!(items, vec![10, 20]);
}
