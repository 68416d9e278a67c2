//! Laws that relate the operations of the engines, stated over their common view.
use vstd::prelude::*;
use crate::rb_tree::RBTree;
use crate::btree_map::BTreeMap;
use crate::bptree::BPTree;

verus! {

/// After `insert(k, v)`, a lookup of `k` gives `v`: every engine's `insert` leaves
/// the view `m.insert(k, v)`, and every engine's lookup answers from its view.
pub proof fn lemma_round_trip<V>(m: Map<u64, V>, k: u64, v: V)
    ensures
        m.insert(k, v).contains_key(k),
        m.insert(k, v)[k] == v,
{
}

/// After `delete(k)` of a present key, a lookup of `k` finds nothing and the
/// engine holds exactly one key fewer.
pub proof fn lemma_delete_present<V>(m: Map<u64, V>, k: u64)
    requires
        m.contains_key(k),
        m.dom().finite(),
    ensures
        !m.remove(k).contains_key(k),
        m.remove(k).dom().len() + 1 == m.dom().len(),
{
}

/// `delete(k)` of an absent key leaves every entry as it was.
pub proof fn lemma_delete_absent<V>(m: Map<u64, V>, k: u64)
    requires
        !m.contains_key(k),
    ensures
        m.remove(k) == m,
{
    assert(m.remove(k) =~= m);
}

/// One step of a run over the engines.
pub enum Op<V> {
    Insert(u64, V),
    Delete(u64),
}

/// The entries after applying `ops` to `m` in order.
pub open spec fn replay<V>(m: Map<u64, V>, ops: Seq<Op<V>>) -> Map<u64, V>
    decreases ops.len(),
{
    if ops.len() == 0 {
        m
    } else {
        match ops.last() {
            Op::Insert(k, v) => replay(m, ops.drop_last()).insert(k, v),
            Op::Delete(k) => replay(m, ops.drop_last()).remove(k),
        }
    }
}

/// Applies the same operations to a fresh engine of each kind, the B-tree of
/// minimum degree `btree_degree` and the B+-tree of `bptree_degree`. After every
/// step the three hold the same entries: they differ only in shape, never in content.
pub fn run_all_engines<V: Copy>(ops: &Vec<Op<V>>, btree_degree: usize, bptree_degree: usize) -> (r: (
    RBTree<V>,
    BTreeMap<V>,
    BPTree<V>,
))
    requires
        2 <= btree_degree,
        2 * btree_degree <= usize::MAX,
        2 <= bptree_degree,
        2 * bptree_degree <= usize::MAX,
    ensures
        r.0.wf(),
        r.1.wf(),
        r.2.wf(),
        r.0@ == replay(Map::empty(), ops@),
        r.1@ == r.0@,
        r.2@ == r.0@,
{
    let mut rb: RBTree<V> = RBTree::new();
    let mut bt: BTreeMap<V> = BTreeMap::new(btree_degree);
    let mut bp: BPTree<V> = BPTree::new(bptree_degree);
    let mut i: usize = 0;
    while i < ops.len()
        invariant
            0 <= i <= ops.len(),
            rb.wf(),
            bt.wf(),
            bp.wf(),
            rb@ == replay(Map::empty(), ops@.subrange(0, i as int)),
            bt@ == rb@,
            bp@ == rb@,
        decreases ops.len() - i,
    {
        proof {
            assert(ops@.subrange(0, i + 1).drop_last() =~= ops@.subrange(0, i as int));
            assert(ops@.subrange(0, i + 1).last() == ops@[i as int]);
        }
        match &ops[i] {
            Op::Insert(k, v) => {
                rb.insert(*k, *v);
                bt.insert(*k, *v);
                bp.insert(*k, *v);
            },
            Op::Delete(k) => {
                rb.delete(k);
                bt.delete(k);
                bp.delete(k);
            },
        }
        i += 1;
    }
    proof {
        assert(ops@.subrange(0, ops.len() as int) =~= ops@);
    }
    (rb, bt, bp)
}

} // verus!
