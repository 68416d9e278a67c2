use std::collections::BTreeMap as Model;
use tree_engines::bptree::BPTree;
use tree_engines::btree_map::BTreeMap;
use tree_engines::laws::{run_all_engines, Op};
use tree_engines::rb_tree::RBTree;

fn scramble(i: u64) -> u64 {
    (i.wrapping_mul(6364136223846793005).wrapping_add(1442695040888963407) >> 33) % 512
}

#[test]
fn scenario_each_engine() {
    let mut rb = RBTree::new();
    let mut bt = BTreeMap::new(3);
    let mut bp = BPTree::new(3);
    for (k, v) in [(10u64, "ten"), (5, "five"), (15, "fifteen")] {
        rb.insert(k, v);
        bt.insert(k, v);
        bp.insert(k, v);
    }
    assert_eq!(rb.find(&5), Some(&"five"));
    assert_eq!(bt.get(&15), Some(&"fifteen"));
    assert_eq!(bp.get(&999), None);
    assert_eq!(rb.range_query(&1, &10), vec![&"five", &"ten"]);
    assert_eq!(bt.range_query(&1, &10), vec![&"five", &"ten"]);
    assert_eq!(bp.range_query(&1, &10), vec!["five", "ten"]);
}

#[test]
fn engines_match_a_model() {
    let mut rb = RBTree::new();
    let mut bt = BTreeMap::new(2);
    let mut bp = BPTree::new(2);
    let mut model = Model::new();
    for i in 0u64..2000 {
        let k = scramble(i);
        if i % 3 == 2 {
            rb.delete(&k);
            bt.delete(&k);
            bp.delete(&k);
            model.remove(&k);
        } else {
            rb.insert(k, i);
            bt.insert(k, i);
            bp.insert(k, i);
            model.insert(k, i);
        }
    }
    for k in 0u64..512 {
        let want = model.get(&k).copied();
        assert_eq!(rb.find(&k).copied(), want);
        assert_eq!(bt.get(&k).copied(), want);
        assert_eq!(bp.get(&k), want);
    }
    let want: Vec<u64> = model.range(100..=300).map(|(_, v)| *v).collect();
    let from_rb: Vec<u64> = rb.range_query(&100, &300).into_iter().copied().collect();
    let from_bt: Vec<u64> = bt.range_query(&100, &300).into_iter().copied().collect();
    assert_eq!(from_rb, want);
    assert_eq!(from_bt, want);
    assert_eq!(bp.range_query(&100, &300), want);
}

#[test]
fn run_all_engines_agree() {
    let mut ops = Vec::new();
    for i in 0u64..300 {
        let k = scramble(i) % 64;
        if i % 4 == 3 {
            ops.push(Op::Delete(k));
        } else {
            ops.push(Op::Insert(k, i));
        }
    }
    let (rb, bt, bp) = run_all_engines(&ops, 2, 3);
    let a: Vec<u64> = rb.range_query(&0, &u64::MAX).into_iter().copied().collect();
    let b: Vec<u64> = bt.range_query(&0, &u64::MAX).into_iter().copied().collect();
    let c: Vec<u64> = bp.range_query(&0, &u64::MAX);
    assert_eq!(a, b);
    assert_eq!(a, c);
    assert!(!a.is_empty());
}

#[test]
fn ordering_after_shuffled_inserts() {
    let mut rb = RBTree::new();
    let mut bt = BTreeMap::new(4);
    let mut bp = BPTree::new(4);
    for i in 0u64..400 {
        let k = scramble(i);
        rb.insert(k, k);
        bt.insert(k, k);
        bp.insert(k, k);
    }
    let a: Vec<u64> = rb.range_query(&0, &u64::MAX).into_iter().copied().collect();
    assert!(a.windows(2).all(|w| w[0] < w[1]));
    let b: Vec<u64> = bt.range_query(&0, &u64::MAX).into_iter().copied().collect();
    assert_eq!(a, b);
    assert_eq!(a, bp.range_query(&0, &u64::MAX));
}
