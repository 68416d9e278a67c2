use tree_engines::btree_map::BTreeMap;

#[test]
fn test_btree_insert_get() {
    let mut btree = BTreeMap::new(3);
    btree.insert(10, "ten");
    btree.insert(5, "five");
    btree.insert(15, "fifteen");

    assert_eq!(btree.get(&10), Some(&"ten"));
    assert_eq!(btree.get(&5), Some(&"five"));
    assert_eq!(btree.get(&15), Some(&"fifteen"));
    assert_eq!(btree.get(&999), None);
}

#[test]
fn btree_range_in_key_order() {
    let mut btree = BTreeMap::new(3);
    btree.insert(10, "ten");
    btree.insert(5, "five");
    btree.insert(15, "fifteen");
    assert_eq!(btree.range_query(&1, &10), vec![&"five", &"ten"]);
    assert!(btree.range_query(&11, &14).is_empty());
}

#[test]
fn btree_overwrite_keeps_one_entry() {
    let mut btree = BTreeMap::new(2);
    for k in 0u64..20 {
        btree.insert(k, k);
    }
    btree.insert(7, 700);
    assert_eq!(btree.get(&7), Some(&700));
    assert_eq!(btree.range_query(&0, &u64::MAX).len(), 20);
}

#[test]
fn btree_delete_every_other_key() {
    let mut btree = BTreeMap::new(2);
    for k in 0u64..100 {
        btree.insert((k * 37) % 100, k);
    }
    for k in (0u64..100).step_by(2) {
        btree.delete(&k);
    }
    btree.delete(&1000);
    for k in 0u64..100 {
        assert_eq!(btree.get(&k).is_some(), k % 2 == 1);
    }
    let odd: Vec<u64> = (0u64..100).filter(|k| k % 2 == 1).collect();
    let got: Vec<u64> = btree.range_query(&0, &u64::MAX).into_iter().map(|v| (v * 37) % 100).collect();
    assert_eq!(got, odd);
}
