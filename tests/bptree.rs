use tree_engines::bptree::BPTree;

#[test]
fn test_bptree_insert_find() {
    let mut bpt = BPTree::new(3);
    bpt.insert(10, "ten".to_string());
    bpt.insert(5, "five".to_string());
    bpt.insert(15, "fifteen".to_string());

    assert_eq!(bpt.get(&10), Some("ten".to_string()));
    assert_eq!(bpt.get(&5), Some("five".to_string()));
    assert_eq!(bpt.get(&15), Some("fifteen".to_string()));
    assert_eq!(bpt.get(&999), None);
}

#[test]
fn test_bptree_delete() {
    let mut bpt = BPTree::new(3);
    bpt.insert(20, "twenty".to_string());
    bpt.insert(10, "ten".to_string());
    bpt.insert(30, "thirty".to_string());
    bpt.insert(25, "twenty-five".to_string());
    bpt.insert(35, "thirty-five".to_string());

    bpt.delete(&999);
    assert_eq!(bpt.get(&30), Some("thirty".to_string()));

    bpt.delete(&30);
    assert_eq!(bpt.get(&30), None);

    bpt.delete(&20);
    assert_eq!(bpt.get(&20), None);
    assert_eq!(bpt.get(&10), Some("ten".to_string()));
}

#[test]
fn bptree_range_in_key_order() {
    let mut bpt = BPTree::new(3);
    bpt.insert(10, "ten".to_string());
    bpt.insert(5, "five".to_string());
    bpt.insert(15, "fifteen".to_string());
    assert_eq!(bpt.range_query(&1, &10), vec!["five".to_string(), "ten".to_string()]);
    assert!(bpt.range_query(&16, &20).is_empty());
}

#[test]
fn bptree_delete_keeps_chain() {
    let mut bpt = BPTree::new(3);
    for (k, v) in [(20u64, "twenty"), (10, "ten"), (30, "thirty"), (25, "twenty-five"), (35, "thirty-five")] {
        bpt.insert(k, v.to_string());
    }
    bpt.delete(&30);
    assert_eq!(bpt.get(&30), None);
    assert_eq!(bpt.get(&25), Some("twenty-five".to_string()));
    assert_eq!(bpt.get(&35), Some("thirty-five".to_string()));
    assert_eq!(
        bpt.range_query(&0, &u64::MAX),
        vec!["ten".to_string(), "twenty".to_string(), "twenty-five".to_string(), "thirty-five".to_string()]
    );
}

#[test]
fn bptree_many_keys_across_leaves() {
    let mut bpt = BPTree::new(2);
    for i in 0u64..300 {
        bpt.insert((i * 7919) % 300, i);
    }
    let all = bpt.range_query(&0, &u64::MAX);
    assert_eq!(all.len(), 300);
    let keys: Vec<u64> = all.iter().map(|v| (v * 7919) % 300).collect();
    let expected: Vec<u64> = (0u64..300).collect();
    assert_eq!(keys, expected);
    assert_eq!(bpt.range_query(&100, &104).len(), 5);
    for k in 0u64..300 {
        if k % 3 == 0 {
            bpt.delete(&k);
        }
    }
    for k in 0u64..300 {
        assert_eq!(bpt.get(&k).is_some(), k % 3 != 0);
    }
    assert_eq!(bpt.range_query(&0, &u64::MAX).len(), 200);
}

#[test]
fn bptree_bulk_insert_later_pair_wins() {
    let mut bpt = BPTree::new(3);
    bpt.bulk_insert(vec![(9u64, 1u32), (3, 2), (9, 3), (1, 4), (3, 5)]);
    assert_eq!(bpt.get(&9), Some(3));
    assert_eq!(bpt.get(&3), Some(5));
    assert_eq!(bpt.get(&1), Some(4));
    assert_eq!(bpt.range_query(&0, &10), vec![4, 5, 3]);
}

#[test]
fn bptree_bulk_delete() {
    let mut bpt = BPTree::new(2);
    let pairs: Vec<(u64, u64)> = (0u64..50).map(|k| (k, k + 100)).collect();
    bpt.bulk_insert(pairs);
    let gone: Vec<u64> = (0u64..50).filter(|k| k % 5 != 0).collect();
    bpt.bulk_delete(&gone);
    assert_eq!(bpt.range_query(&0, &u64::MAX), vec![100, 105, 110, 115, 120, 125, 130, 135, 140, 145]);
    bpt.bulk_delete(&[0, 5, 10, 15, 20, 25, 30, 35, 40, 45, 1000]);
    assert!(bpt.range_query(&0, &u64::MAX).is_empty());
    bpt.insert(1, 1);
    assert_eq!(bpt.get(&1), Some(1));
}
