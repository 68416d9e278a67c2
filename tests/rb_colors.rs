use tree_engines::rb_tree::{Color, Link, RBTree};

/// Black height of a subtree if it is colour balanced and has no red node with a
/// red child; `None` otherwise.
fn checked_black_height<V>(t: &Link<V>) -> Option<usize> {
    match t {
        None => Some(0),
        Some(n) => {
            if n.color == Color::Red {
                let red_child = |c: &Link<V>| matches!(c, Some(x) if x.color == Color::Red);
                if red_child(&n.left) || red_child(&n.right) {
                    return None;
                }
            }
            let l = checked_black_height(&n.left)?;
            let r = checked_black_height(&n.right)?;
            if l != r {
                return None;
            }
            Some(l + if n.color == Color::Black { 1 } else { 0 })
        }
    }
}

fn colours_hold<V>(tree: &RBTree<V>) -> bool {
    let root_black = match &tree.root {
        Some(n) => n.color == Color::Black,
        None => true,
    };
    root_black && checked_black_height(&tree.root).is_some()
}

#[test]
fn rb_colours_after_every_insert_and_delete() {
    let mut tree = RBTree::new();
    let mut state: u64 = 12345;
    for step in 0u64..5000 {
        state = state.wrapping_mul(6364136223846793005).wrapping_add(1442695040888963407);
        let k = (state >> 33) % 300;
        if step % 3 == 0 {
            tree.delete(&k);
        } else {
            tree.insert(k, step);
        }
        assert!(colours_hold(&tree), "colour invariant broken at step {}", step);
    }
}

#[test]
fn rb_colours_ascending_then_descending_deletes() {
    let mut tree = RBTree::new();
    for k in 0u64..200 {
        tree.insert(k, k);
        assert!(colours_hold(&tree));
    }
    for k in (0u64..200).rev() {
        tree.delete(&k);
        assert!(colours_hold(&tree));
    }
    assert!(tree.root.is_none());
}

#[test]
fn rb_colours_many_seeds() {
    for seed in 0u64..300 {
        let range = [8u64, 16, 40, 100][(seed % 4) as usize];
        let mut tree = RBTree::new();
        let mut state: u64 = seed.wrapping_mul(0x9E3779B97F4A7C15).wrapping_add(7);
        for step in 0u64..1500 {
            state = state.wrapping_mul(6364136223846793005).wrapping_add(1442695040888963407);
            let k = (state >> 33) % range;
            let del = (state >> 20) % 5 < 2;
            if del {
                tree.delete(&k);
            } else {
                tree.insert(k, step);
            }
            assert!(colours_hold(&tree), "colour invariant broken: seed {} step {}", seed, step);
        }
    }
}

#[test]
fn rb_colours_larger_trees() {
    for seed in 0u64..12 {
        let mut tree = RBTree::new();
        let mut state: u64 = seed.wrapping_mul(0xD1B54A32D192ED03).wrapping_add(99);
        for step in 0u64..4000 {
            state = state.wrapping_mul(6364136223846793005).wrapping_add(1442695040888963407);
            let k = (state >> 33) % 1500;
            if step > 1500 && (state >> 20) % 2 == 0 {
                tree.delete(&k);
            } else {
                tree.insert(k, step);
            }
            assert!(colours_hold(&tree), "colour invariant broken: seed {} step {}", seed, step);
        }
    }
}
