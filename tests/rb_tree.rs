use tree_engines::rb_tree::RBTree;

#[test]
fn test_rb_tree_insert_find() {
    let mut tree = RBTree::new();
    tree.insert(10, "ten");
    tree.insert(5, "five");
    tree.insert(15, "fifteen");

    assert_eq!(tree.find(&10), Some(&"ten"));
    assert_eq!(tree.find(&5), Some(&"five"));
    assert_eq!(tree.find(&15), Some(&"fifteen"));
    assert_eq!(tree.find(&999), None);
}

#[test]
fn rb_range_in_key_order() {
    let mut tree = RBTree::new();
    tree.insert(10, "ten");
    tree.insert(5, "five");
    tree.insert(15, "fifteen");
    assert_eq!(tree.range_query(&1, &10), vec![&"five", &"ten"]);
    assert_eq!(tree.range_query(&16, &100), Vec::<&&str>::new());
    assert_eq!(tree.range_query(&10, &1), Vec::<&&str>::new());
}

#[test]
fn rb_overwrite_keeps_one_entry() {
    let mut tree = RBTree::new();
    tree.insert(7, 1u32);
    tree.insert(7, 2u32);
    assert_eq!(tree.find(&7), Some(&2));
    assert_eq!(tree.range_query(&0, &u64::MAX).len(), 1);
}

#[test]
fn rb_delete_present_and_absent() {
    let mut tree = RBTree::new();
    for k in [50u64, 20, 70, 10, 30, 60, 80] {
        tree.insert(k, k * 2);
    }
    tree.delete(&999);
    assert_eq!(tree.range_query(&0, &u64::MAX).len(), 7);
    tree.delete(&20);
    assert_eq!(tree.find(&20), None);
    assert_eq!(tree.range_query(&0, &u64::MAX), vec![&20, &60, &100, &120, &140, &160]);
    tree.delete(&50);
    assert_eq!(tree.find(&50), None);
    assert_eq!(tree.find(&30), Some(&60));
}

#[test]
fn rb_empty_tree() {
    let mut tree: RBTree<u8> = RBTree::new();
    assert_eq!(tree.find(&0), None);
    tree.delete(&0);
    assert!(tree.range_query(&0, &u64::MAX).is_empty());
}

#[test]
fn rb_extreme_keys() {
    let mut tree = RBTree::new();
    tree.insert(u64::MAX, "max");
    tree.insert(0, "zero");
    assert_eq!(tree.range_query(&0, &u64::MAX), vec![&"zero", &"max"]);
    tree.delete(&u64::MAX);
    assert_eq!(tree.find(&u64::MAX), None);
}
