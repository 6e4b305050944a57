use hyaline_map::SortedUnorderedMap;

#[test]
fn insert_get_remove_get() {
    let mut m: SortedUnorderedMap<&str> = SortedUnorderedMap::new(4, 1);
    assert_eq!(m.insert(5, "a", 0), true);
    assert_eq!(m.get(5, 0), Some("a"));
    assert_eq!(m.remove(5, 0), Some("a"));
    assert_eq!(m.get(5, 0), None);
}

#[test]
fn duplicate_insert() {
    let mut m: SortedUnorderedMap<&str> = SortedUnorderedMap::new(4, 1);
    assert_eq!(m.insert(7, "x", 0), true);
    assert_eq!(m.insert(7, "y", 0), false);
    assert_eq!(m.get(7, 0), Some("x"));
}

#[test]
fn ordered_bucket() {
    let mut m: SortedUnorderedMap<&str> = SortedUnorderedMap::new(1, 1);
    for k in [30u64, 10, 20, 5, 25] {
        assert!(m.insert(k, "v", 0));
    }
    assert_eq!(m.bucket_keys(0), vec![5, 10, 20, 25, 30]);
}

#[test]
fn same_key_race_one_winner() {
    // Two threads inserting the same key: exactly one wins, the map holds
    // the winner's value, and nothing was retired (the loser's node was
    // freed directly).
    let mut m: SortedUnorderedMap<&str> = SortedUnorderedMap::new(4, 2);
    let first = m.insert(9, "w", 0);
    let second = m.insert(9, "l", 1);
    assert!(first);
    assert!(!second);
    assert_eq!(m.get(9, 1), Some("w"));
    assert_eq!(m.retired_backlog(), 0);
}

#[test]
fn churn_leaves_nothing_behind() {
    // Repeated insert/remove of one key alongside reads: afterwards no
    // reader is registered and the retirement list is empty.
    let mut m: SortedUnorderedMap<u64> = SortedUnorderedMap::new(2, 2);
    for i in 0..1000u64 {
        assert!(m.insert(42, i, 0));
        assert_eq!(m.get(42, 1), Some(i));
        assert_eq!(m.remove(42, 0), Some(i));
        assert_eq!(m.get(42, 1), None);
    }
    assert_eq!(m.active_readers(), 0);
    assert_eq!(m.retired_backlog(), 0);
}

#[test]
fn high_contention_mix() {
    // A single-bucket map under a mixed workload over a small key space,
    // checked against a reference model; the final table is a sorted set
    // and the reclamation engine is quiescent.
    let mut m: SortedUnorderedMap<u64> = SortedUnorderedMap::new(1, 16);
    let mut model = std::collections::BTreeMap::new();
    let mut rng: u32 = 12345;
    for op in 0..50_000u64 {
        rng = rng.wrapping_mul(1664525).wrapping_add(1013904223);
        let tid = (op % 16) as i32;
        let key = (rng >> 8) as u64 % 100;
        match rng % 4 {
            0 | 1 => {
                let expect = model.get(&key).copied();
                assert_eq!(m.get(key, tid), expect);
            }
            2 => {
                let fresh = !model.contains_key(&key);
                assert_eq!(m.insert(key, op, tid), fresh);
                model.entry(key).or_insert(op);
            }
            _ => {
                let expect = model.remove(&key);
                assert_eq!(m.remove(key, tid), expect);
            }
        }
    }
    let keys = m.bucket_keys(0);
    let expect: Vec<u64> = model.keys().copied().collect();
    assert_eq!(keys, expect);
    for w in keys.windows(2) {
        assert!(w[0] < w[1]);
    }
    assert_eq!(m.active_readers(), 0);
    assert_eq!(m.retired_backlog(), 0);
}

#[test]
fn keys_spread_over_buckets() {
    let mut m: SortedUnorderedMap<&str> = SortedUnorderedMap::new(8, 1);
    for k in 0..64u64 {
        assert!(m.insert(k, "v", 0));
    }
    let mut seen = 0;
    for b in 0..8 {
        let ks = m.bucket_keys(b);
        for w in ks.windows(2) {
            assert!(w[0] < w[1]);
        }
        seen += ks.len();
    }
    assert_eq!(seen, 64);
}

#[test]
fn empty_bucket_and_tail_insertion() {
    let mut m: SortedUnorderedMap<&str> = SortedUnorderedMap::new(1, 1);
    // Insertion into an empty bucket goes through the bucket head.
    assert!(m.insert(10, "head", 0));
    // Insertion past the last node goes through the tail's successor.
    assert!(m.insert(20, "tail", 0));
    assert_eq!(m.bucket_keys(0), vec![10, 20]);
    assert_eq!(m.get(20, 0), Some("tail"));
}

#[test]
fn largest_key() {
    let mut m: SortedUnorderedMap<&str> = SortedUnorderedMap::new(2, 1);
    assert!(m.insert(u64::MAX, "top", 0));
    assert!(m.insert(0, "bottom", 0));
    assert_eq!(m.get(u64::MAX, 0), Some("top"));
    assert_eq!(m.remove(u64::MAX, 0), Some("top"));
    assert_eq!(m.get(0, 0), Some("bottom"));
}
