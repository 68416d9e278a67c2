//! A B+-tree of minimum degree `t`. Only leaves hold values. Internal nodes
//! hold routing keys: child `i` covers the keys in `[keys[i - 1], keys[i])`.
//! Each leaf names the next one in key order by `next_leaf`, the lowest key
//! that the next leaf covers; following that key from the root reaches it.
use vstd::prelude::*;
use crate::range_model::{values_in_range, lemma_range_split, lemma_range_agree};
use crate::entries::{sorted, entries_map, range_filter, lemma_sorted_concat, lemma_entry_found,
    lemma_map_concat, lemma_map_empty, lemma_has_key, lemma_range_filter_map, lemma_range_filter_concat,
    lemma_range_filter_single, lemma_range_filter_none, lemma_seq_insert, lemma_seq_update, lemma_seq_remove, lemma_map_finite,
    has_key};

verus! {

broadcast use vstd::std_specs::vec::group_vec_axioms, vstd::seq::group_seq_axioms;

#[derive(Clone, Copy, Debug, PartialEq, Eq, Structural)]
pub enum NodeType {
    Internal,
    Leaf,
}

pub struct Node<V> {
    pub node_type: NodeType,
    /// Leaf: the keys held, in increasing order. Internal: the routing keys.
    pub keys: Vec<u64>,
    /// Leaf: the value of each key. Internal: empty.
    pub vals: Vec<V>,
    /// Internal: one child more than keys. Leaf: empty.
    pub children: Vec<Node<V>>,
    /// Leaf: the lowest key covered by the next leaf, if there is one.
    pub next_leaf: Option<u64>,
}

pub open spec fn pairs<V>(k: Seq<u64>, v: Seq<V>) -> Seq<(u64, V)> {
    Seq::new(k.len(), |i: int| (k[i], v[i]))
}

/// The entries of the subtrees `c`, left to right.
pub open spec fn cat<V>(c: Seq<Node<V>>) -> Seq<(u64, V)>
    decreases c,
{
    if c.len() == 0 {
        Seq::empty()
    } else {
        cat(c.drop_last()) + flat(c.last())
    }
}

/// The entries of a subtree in key order: those of its leaves, left to right.
pub open spec fn flat<V>(n: Node<V>) -> Seq<(u64, V)>
    decreases n,
{
    if n.node_type == NodeType::Leaf {
        pairs(n.keys@, n.vals@)
    } else {
        cat(n.children@)
    }
}

pub open spec fn at_least(k: u64, lo: Option<u64>) -> bool {
    match lo {
        Some(l) => l <= k,
        None => true,
    }
}

pub open spec fn at_most(k: u64, hi: Option<u64>) -> bool {
    match hi {
        Some(b) => k <= b,
        None => true,
    }
}

pub open spec fn less_than(k: u64, hi: Option<u64>) -> bool {
    match hi {
        Some(b) => k < b,
        None => true,
    }
}

/// Lower bound of child `i` of a node whose own lower bound is `lo`.
pub open spec fn child_lo<V>(n: Node<V>, i: int, lo: Option<u64>) -> Option<u64> {
    if i == 0 {
        lo
    } else {
        Some(n.keys@[i - 1])
    }
}

/// Upper bound of child `i` of a node whose own upper bound is `hi`.
pub open spec fn child_hi<V>(n: Node<V>, i: int, hi: Option<u64>) -> Option<u64> {
    if i == n.keys.len() {
        hi
    } else {
        Some(n.keys@[i])
    }
}

pub open spec fn keys_increase(k: Seq<u64>) -> bool {
    forall|i: int, j: int| 0 <= i < j < k.len() ==> k[i] < k[j]
}

/// Routing keys never decrease.
pub open spec fn keys_ascend(k: Seq<u64>) -> bool {
    forall|i: int, j: int| 0 <= i <= j < k.len() ==> k[i] <= k[j]
}

/// The subtree `n` covers the keys in `[lo, hi)`, all its leaves lie `h` levels
/// down, and the last leaf names `hi` as its successor.
pub open spec fn covers<V>(n: Node<V>, lo: Option<u64>, hi: Option<u64>, h: nat) -> bool
    decreases n,
{
    &&& if h == 0 {
        &&& keys_increase(n.keys@)
        &&& n.node_type == NodeType::Leaf
        &&& n.children.len() == 0
        &&& n.keys.len() == n.vals.len()
        &&& forall|i: int| 0 <= i < n.keys.len() ==> at_least(#[trigger] n.keys@[i], lo) && less_than(n.keys@[i], hi)
        &&& n.next_leaf == hi
    } else {
        &&& keys_ascend(n.keys@)
        &&& n.node_type == NodeType::Internal
        &&& n.children.len() == n.keys.len() + 1
        &&& n.vals.len() == 0
        &&& forall|i: int| 0 <= i < n.keys.len() ==> at_least(#[trigger] n.keys@[i], lo) && at_most(n.keys@[i], hi)
        &&& forall|i: int| 0 <= i < n.children.len() ==> covers(#[trigger] n.children@[i], child_lo(n, i, lo), child_hi(n, i, hi), (h - 1) as nat)
    }
}

/// `l` and `r` are the leaf `c` cut at index `t - 1`: `l` keeps the first `t - 1`
/// entries and is followed by `r`, whose first key `sep` routes to it; `r`
/// takes over the successor of `c`.
pub open spec fn leaf_split<V>(c: Node<V>, l: Node<V>, r: Node<V>, sep: u64, t: int) -> bool {
    &&& l.node_type == NodeType::Leaf
    &&& r.node_type == NodeType::Leaf
    &&& l.children@.len() == 0
    &&& r.children@.len() == 0
    &&& l.keys@ == c.keys@.subrange(0, t - 1)
    &&& l.vals@ == c.vals@.subrange(0, t - 1)
    &&& r.keys@ == c.keys@.subrange(t - 1, c.keys.len() as int)
    &&& r.vals@ == c.vals@.subrange(t - 1, c.vals.len() as int)
    &&& r.keys@.len() > 0
    &&& sep == r.keys@[0]
    &&& l.next_leaf == Some(sep)
    &&& r.next_leaf == c.next_leaf
}

/// `l` and `r` are the internal node `c` cut around its key `t - 1`, which is `sep`:
/// `l` keeps the keys before it and the first `t` children, `r` the rest.
pub open spec fn internal_split<V>(c: Node<V>, l: Node<V>, r: Node<V>, sep: u64, t: int) -> bool {
    &&& l.node_type == NodeType::Internal
    &&& r.node_type == NodeType::Internal
    &&& sep == c.keys@[t - 1]
    &&& l.keys@ == c.keys@.subrange(0, t - 1)
    &&& l.children@ == c.children@.subrange(0, t)
    &&& r.keys@ == c.keys@.subrange(t, c.keys.len() as int)
    &&& r.children@ == c.children@.subrange(t, c.children.len() as int)
}

/// A leaf borrow from the left: `l1` is `l0` without its last entry, which goes to
/// the front of `c0` to make `c1`; that key, `sep`, is the new first key of `c1`.
pub open spec fn leaf_moved_right<V>(l0: Node<V>, c0: Node<V>, l1: Node<V>, c1: Node<V>, sep: u64) -> bool {
    &&& l1.node_type == NodeType::Leaf
    &&& c1.node_type == NodeType::Leaf
    &&& l0.keys@.len() > 0
    &&& l1.keys@ == l0.keys@.drop_last()
    &&& l1.vals@ == l0.vals@.drop_last()
    &&& c1.keys@ == seq![l0.keys@.last()] + c0.keys@
    &&& c1.vals@ == seq![l0.vals@.last()] + c0.vals@
    &&& sep == l0.keys@.last()
    &&& sep == c1.keys@[0]
    &&& l1.next_leaf == Some(sep)
    &&& c1.next_leaf == c0.next_leaf
    &&& l1.children@ == l0.children@
    &&& c1.children@ == c0.children@
}

/// An internal borrow from the left: the last key of `l0` goes up as `sep`, the old
/// separator `old_sep` and the last child of `l0` go to the front of `c0`.
pub open spec fn internal_moved_right<V>(l0: Node<V>, c0: Node<V>, l1: Node<V>, c1: Node<V>, old_sep: u64, sep: u64) -> bool {
    &&& l1.node_type == NodeType::Internal
    &&& c1.node_type == NodeType::Internal
    &&& l0.keys@.len() > 0
    &&& sep == l0.keys@.last()
    &&& l1.keys@ == l0.keys@.drop_last()
    &&& l1.children@ == l0.children@.drop_last()
    &&& c1.keys@ == seq![old_sep] + c0.keys@
    &&& c1.children@ == seq![l0.children@.last()] + c0.children@
}

/// A leaf borrow from the right: the first entry of `r0` goes to the end of `c0`;
/// the new first key of what is left, `sep`, routes to it.
pub open spec fn leaf_moved_left<V>(c0: Node<V>, r0: Node<V>, c1: Node<V>, r1: Node<V>, sep: u64) -> bool {
    &&& c1.node_type == NodeType::Leaf
    &&& r1.node_type == NodeType::Leaf
    &&& r0.keys@.len() > 1
    &&& c1.keys@ == c0.keys@.push(r0.keys@[0])
    &&& c1.vals@ == c0.vals@.push(r0.vals@[0])
    &&& r1.keys@ == r0.keys@.subrange(1, r0.keys@.len() as int)
    &&& r1.vals@ == r0.vals@.subrange(1, r0.vals@.len() as int)
    &&& sep == r1.keys@[0]
    &&& c1.next_leaf == Some(sep)
    &&& r1.next_leaf == r0.next_leaf
    &&& c1.children@ == c0.children@
    &&& r1.children@ == r0.children@
}

/// An internal borrow from the right: the first key of `r0` goes up as `sep`, the
/// old separator `old_sep` and the first child of `r0` go to the end of `c0`.
pub open spec fn internal_moved_left<V>(c0: Node<V>, r0: Node<V>, c1: Node<V>, r1: Node<V>, old_sep: u64, sep: u64) -> bool {
    &&& c1.node_type == NodeType::Internal
    &&& r1.node_type == NodeType::Internal
    &&& r0.keys@.len() > 0
    &&& sep == r0.keys@[0]
    &&& c1.keys@ == c0.keys@.push(old_sep)
    &&& c1.children@ == c0.children@.push(r0.children@[0])
    &&& r1.keys@ == r0.keys@.subrange(1, r0.keys@.len() as int)
    &&& r1.children@ == r0.children@.subrange(1, r0.children@.len() as int)
}

/// `c` joins the neighbours `l0` and `r0`: two leaves by their entries, `c` taking
/// over the successor of `r0`; two internal nodes around the separator `sep`.
pub open spec fn joined<V>(l0: Node<V>, r0: Node<V>, c: Node<V>, sep: u64) -> bool {
    &&& c.node_type == l0.node_type
    &&& if l0.node_type == NodeType::Leaf {
        &&& c.keys@ == l0.keys@ + r0.keys@
        &&& c.vals@ == l0.vals@ + r0.vals@
        &&& c.next_leaf == r0.next_leaf
    } else {
        &&& c.keys@ == l0.keys@.push(sep) + r0.keys@
        &&& c.children@ == l0.children@ + r0.children@
    }
}

/// Every node holds between `t - 1` and `2t - 1` keys.
pub open spec fn filled<V>(n: Node<V>, t: int) -> bool
    decreases n,
{
    &&& t - 1 <= n.keys.len() <= 2 * t - 1
    &&& n.node_type == NodeType::Internal ==> forall|i: int| 0 <= i < n.children.len() ==> filled(#[trigger] n.children@[i], t)
}

/// The bounds that a root meets: at most `2t - 1` keys, every other node filled.
pub open spec fn within<V>(n: Node<V>, t: int) -> bool {
    &&& n.keys.len() <= 2 * t - 1
    &&& n.node_type == NodeType::Internal ==> forall|i: int| 0 <= i < n.children.len() ==> filled(#[trigger] n.children@[i], t)
}

/// The entries of two runs of subtrees, one after the other.
pub proof fn lemma_cat_append<V>(a: Seq<Node<V>>, b: Seq<Node<V>>)
    ensures
        cat(a + b) == cat(a) + cat(b),
    decreases b.len(),
{
    if b.len() == 0 {
        assert(a + b =~= a);
        assert(cat(a) + cat(b) =~= cat(a));
    } else {
        lemma_cat_append(a, b.drop_last());
        assert((a + b).drop_last() =~= a + b.drop_last());
        assert(cat(a + b) =~= cat(a) + cat(b));
    }
}

/// The entries of an internal node around child `i`.
pub proof fn lemma_cat_split<V>(c: Seq<Node<V>>, i: int)
    requires
        0 <= i < c.len(),
    ensures
        cat(c) == cat(c.subrange(0, i)) + flat(c[i]) + cat(c.subrange(i + 1, c.len() as int)),
{
    lemma_cat_append(c.subrange(0, i + 1), c.subrange(i + 1, c.len() as int));
    assert(c.subrange(0, i + 1) + c.subrange(i + 1, c.len() as int) =~= c);
    assert(c.subrange(0, i + 1).drop_last() =~= c.subrange(0, i));
}



/// Child `i` replaced by `c2`, which covers the same bounds at the same height:
/// inside those bounds the node holds what `c2` holds, outside them what it held.
pub proof fn lemma_child_swap<V>(n: Node<V>, n2: Node<V>, lo: Option<u64>, hi: Option<u64>, h: nat, i: int, c2: Node<V>)
    requires
        n2.vals@ == n.vals@,
        covers(n, lo, hi, h),
        h > 0,
        0 <= i < n.children.len(),
        n2.node_type == n.node_type,
        n2.keys@ == n.keys@,
        n2.children@ == n.children@.update(i, c2),
        covers(c2, child_lo(n, i, lo), child_hi(n, i, hi), (h - 1) as nat),
    ensures
        covers(n2, lo, hi, h),
        forall|x: u64| at_least(x, child_lo(n, i, lo)) && less_than(x, child_hi(n, i, hi)) ==> {
            &&& (#[trigger] entries_map(flat(n2)).contains_key(x) <==> entries_map(flat(c2)).contains_key(x))
            &&& (entries_map(flat(n2)).contains_key(x) ==> entries_map(flat(n2))[x] == entries_map(flat(c2))[x])
            &&& (entries_map(flat(n)).contains_key(x) <==> entries_map(flat(n.children@[i])).contains_key(x))
            &&& (entries_map(flat(n)).contains_key(x) ==> entries_map(flat(n))[x] == entries_map(flat(n.children@[i]))[x])
        },
        forall|x: u64| !(at_least(x, child_lo(n, i, lo)) && less_than(x, child_hi(n, i, hi))) ==> {
            &&& (#[trigger] entries_map(flat(n2)).contains_key(x) <==> entries_map(flat(n)).contains_key(x))
            &&& (entries_map(flat(n2)).contains_key(x) ==> entries_map(flat(n2))[x] == entries_map(flat(n))[x])
        },
{
    assert forall|j: int| 0 <= j < n2.children.len() implies covers(#[trigger] n2.children@[j], child_lo(n2, j, lo), child_hi(n2, j, hi), (h - 1) as nat) by {
        if j != i {
            assert(n2.children@[j] == n.children@[j]);
        }
    }
    assert(covers(n2, lo, hi, h));
    lemma_route(n, lo, hi, h, i);
    lemma_route(n2, lo, hi, h, i);
    let c = n.children@;
    let c2s = n2.children@;
    lemma_cat_split(c, i);
    lemma_cat_split(c2s, i);
    assert(c2s.subrange(0, i) =~= c.subrange(0, i));
    assert(c2s.subrange(i + 1, c2s.len() as int) =~= c.subrange(i + 1, c.len() as int));
    let a = cat(c.subrange(0, i));
    let b = cat(c.subrange(i + 1, c.len() as int));
    let x1 = flat(c[i]);
    let x2 = flat(c2);
    lemma_covers(n, lo, hi, h);
    lemma_covers(n2, lo, hi, h);
    lemma_covers(c[i], child_lo(n, i, lo), child_hi(n, i, hi), (h - 1) as nat);
    lemma_covers(c2, child_lo(n, i, lo), child_hi(n, i, hi), (h - 1) as nat);
    assert(flat(n) == a + x1 + b);
    assert(flat(n2) == a + x2 + b);
    lemma_sorted_concat(a + x1, b);
    lemma_map_concat(a + x1, b);
    lemma_map_concat(a, x1);
    lemma_sorted_concat(a + x2, b);
    lemma_map_concat(a + x2, b);
    lemma_map_concat(a, x2);
    assert forall|y: u64| !(at_least(y, child_lo(n, i, lo)) && less_than(y, child_hi(n, i, hi))) implies
        !entries_map(x1).contains_key(y) && !entries_map(x2).contains_key(y) by {
        if has_key(x1, y) {
            let p = choose|p: int| 0 <= p < x1.len() && #[trigger] x1[p].0 == y;
        }
        if has_key(x2, y) {
            let p = choose|p: int| 0 <= p < x2.len() && #[trigger] x2[p].0 == y;
        }
    }
}

/// A full leaf cut at index `t - 1`: its entries are those of the two halves.
pub proof fn lemma_leaf_cut<V>(c: Node<V>, l: Node<V>, r: Node<V>, t: int)
    requires
        c.node_type == NodeType::Leaf,
        l.node_type == NodeType::Leaf,
        r.node_type == NodeType::Leaf,
        c.keys.len() == c.vals.len(),
        0 <= t <= c.keys.len(),
        l.keys@ == c.keys@.subrange(0, t),
        l.vals@ == c.vals@.subrange(0, t),
        r.keys@ == c.keys@.subrange(t, c.keys.len() as int),
        r.vals@ == c.vals@.subrange(t, c.vals.len() as int),
    ensures
        flat(c) == flat(l) + flat(r),
{
    assert(flat(c) =~= flat(l) + flat(r));
}


/// An internal node cut around key `t - 1`, which moves up.
pub proof fn lemma_cut_internal<V>(c: Node<V>, l: Node<V>, r: Node<V>, lo: Option<u64>, hi: Option<u64>, h: nat, t: int)
    requires
        l.vals.len() == 0 && r.vals.len() == 0,
        covers(c, lo, hi, h),
        h > 0,
        1 <= t < c.keys.len(),
        l.node_type == NodeType::Internal,
        r.node_type == NodeType::Internal,
        l.keys@ == c.keys@.subrange(0, t - 1),
        l.children@ == c.children@.subrange(0, t),
        r.keys@ == c.keys@.subrange(t, c.keys.len() as int),
        r.children@ == c.children@.subrange(t, c.children.len() as int),
    ensures
        covers(l, lo, Some(c.keys@[t - 1]), h),
        covers(r, Some(c.keys@[t - 1]), hi, h),
        flat(c) == flat(l) + flat(r),
        at_least(c.keys@[t - 1], lo),
        at_most(c.keys@[t - 1], hi),
{
    let up = c.keys@[t - 1];
    assert forall|j: int| 0 <= j < l.children.len() implies covers(#[trigger] l.children@[j], child_lo(l, j, lo), child_hi(l, j, Some(up)), (h - 1) as nat) by {
        assert(l.children@[j] == c.children@[j]);
        assert(child_lo(l, j, lo) == child_lo(c, j, lo));
        assert(child_hi(l, j, Some(up)) == child_hi(c, j, hi));
    }
    assert forall|j: int| 0 <= j < r.children.len() implies covers(#[trigger] r.children@[j], child_lo(r, j, Some(up)), child_hi(r, j, hi), (h - 1) as nat) by {
        assert(r.children@[j] == c.children@[t + j]);
        assert(child_lo(r, j, Some(up)) == child_lo(c, t + j, lo));
        assert(child_hi(r, j, hi) == child_hi(c, t + j, hi));
    }
    assert forall|j: int| 0 <= j < l.keys.len() implies at_least(#[trigger] l.keys@[j], lo) && at_most(l.keys@[j], Some(up)) by {
        assert(l.keys@[j] == c.keys@[j]);
    }
    assert forall|j: int| 0 <= j < r.keys.len() implies at_least(#[trigger] r.keys@[j], Some(up)) && at_most(r.keys@[j], hi) by {
        assert(r.keys@[j] == c.keys@[t + j]);
    }
    assert(keys_ascend(l.keys@)) by {
        assert forall|a: int, b: int| 0 <= a <= b < l.keys.len() implies l.keys@[a] <= l.keys@[b] by {
            assert(l.keys@[a] == c.keys@[a] && l.keys@[b] == c.keys@[b]);
        }
    }
    assert(keys_ascend(r.keys@)) by {
        assert forall|a: int, b: int| 0 <= a <= b < r.keys.len() implies r.keys@[a] <= r.keys@[b] by {
            assert(r.keys@[a] == c.keys@[t + a] && r.keys@[b] == c.keys@[t + b]);
        }
    }
    lemma_cat_append(l.children@, r.children@);
    assert(l.children@ + r.children@ =~= c.children@);
}

/// A leaf cut at index `t - 1`: the left half is followed by the right half, whose
/// first key becomes the separator.
pub proof fn lemma_cut_leaf<V>(c: Node<V>, l: Node<V>, r: Node<V>, lo: Option<u64>, hi: Option<u64>, t: int)
    requires
        covers(c, lo, hi, 0),
        1 <= t < c.keys.len(),
        l.node_type == NodeType::Leaf,
        r.node_type == NodeType::Leaf,
        l.children@.len() == 0,
        r.children@.len() == 0,
        l.keys@ == c.keys@.subrange(0, t),
        l.vals@ == c.vals@.subrange(0, t),
        r.keys@ == c.keys@.subrange(t, c.keys.len() as int),
        r.vals@ == c.vals@.subrange(t, c.vals.len() as int),
        l.next_leaf == Some(c.keys@[t]),
        r.next_leaf == c.next_leaf,
    ensures
        covers(l, lo, Some(c.keys@[t]), 0),
        covers(r, Some(c.keys@[t]), hi, 0),
        flat(c) == flat(l) + flat(r),
        at_least(c.keys@[t], lo),
        less_than(c.keys@[t], hi),
        lo.is_some() ==> lo.unwrap() < c.keys@[t],
{
    let sep = c.keys@[t];
    assert forall|j: int| 0 <= j < l.keys.len() implies at_least(#[trigger] l.keys@[j], lo) && less_than(l.keys@[j], Some(sep)) by {
        assert(l.keys@[j] == c.keys@[j]);
    }
    assert forall|j: int| 0 <= j < r.keys.len() implies at_least(#[trigger] r.keys@[j], Some(sep)) && less_than(r.keys@[j], hi) by {
        assert(r.keys@[j] == c.keys@[t + j]);
    }
    assert(keys_increase(l.keys@)) by {
        assert forall|a: int, b: int| 0 <= a < b < l.keys.len() implies l.keys@[a] < l.keys@[b] by {
            assert(l.keys@[a] == c.keys@[a] && l.keys@[b] == c.keys@[b]);
        }
    }
    assert(keys_increase(r.keys@)) by {
        assert forall|a: int, b: int| 0 <= a < b < r.keys.len() implies r.keys@[a] < r.keys@[b] by {
            assert(r.keys@[a] == c.keys@[t + a] && r.keys@[b] == c.keys@[t + b]);
        }
    }
    assert(at_least(c.keys@[0], lo));
    assert(c.keys@[0] < sep);
    lemma_leaf_cut(c, l, r, t);
}

/// Child `i` replaced by the halves `l` and `r` with the separator `sep` between them.
pub proof fn lemma_parent_split<V>(p: Node<V>, pn: Node<V>, lo: Option<u64>, hi: Option<u64>, h: nat, i: int, l: Node<V>, r: Node<V>, sep: u64)
    requires
        pn.vals@ == p.vals@,
        covers(p, lo, hi, h),
        h > 0,
        0 <= i < p.children.len(),
        covers(l, child_lo(p, i, lo), Some(sep), (h - 1) as nat),
        covers(r, Some(sep), child_hi(p, i, hi), (h - 1) as nat),
        flat(p.children@[i]) == flat(l) + flat(r),
        i > 0 ==> p.keys@[i - 1] <= sep,
        i < p.keys.len() ==> sep <= p.keys@[i],
        at_least(sep, lo),
        at_most(sep, hi),
        pn.node_type == p.node_type,
        pn.keys@ == p.keys@.insert(i, sep),
        pn.children@ == p.children@.update(i, l).insert(i + 1, r),
    ensures
        covers(pn, lo, hi, h),
        flat(pn) == flat(p),
{
    let m = p.keys.len() as int;
    assert forall|j: int| 0 <= j < pn.keys.len() implies at_least(#[trigger] pn.keys@[j], lo) && at_most(pn.keys@[j], hi) by {
        if j < i {
            assert(pn.keys@[j] == p.keys@[j]);
        } else if j > i {
            assert(pn.keys@[j] == p.keys@[j - 1]);
        }
    }
    assert(keys_ascend(pn.keys@)) by {
        assert forall|a: int, b: int| 0 <= a <= b < pn.keys.len() implies pn.keys@[a] <= pn.keys@[b] by {
            if a == b {
            } else if b < i {
                assert(pn.keys@[a] == p.keys@[a] && pn.keys@[b] == p.keys@[b]);
            } else if b == i {
                assert(pn.keys@[a] == p.keys@[a]);
                assert(p.keys@[a] <= p.keys@[i - 1]);
            } else if a < i {
                assert(pn.keys@[a] == p.keys@[a] && pn.keys@[b] == p.keys@[b - 1]);
            } else if a == i {
                assert(pn.keys@[b] == p.keys@[b - 1]);
                assert(p.keys@[i] <= p.keys@[b - 1]);
            } else {
                assert(pn.keys@[a] == p.keys@[a - 1] && pn.keys@[b] == p.keys@[b - 1]);
            }
        }
    }
    assert forall|j: int| 0 <= j < pn.children.len() implies covers(#[trigger] pn.children@[j], child_lo(pn, j, lo), child_hi(pn, j, hi), (h - 1) as nat) by {
        if j < i {
            assert(pn.children@[j] == p.children@[j]);
            assert(child_lo(pn, j, lo) == child_lo(p, j, lo));
            assert(child_hi(pn, j, hi) == child_hi(p, j, hi));
        } else if j == i {
            assert(child_lo(pn, j, lo) == child_lo(p, i, lo));
        } else if j == i + 1 {
            assert(child_hi(pn, j, hi) == child_hi(p, i, hi));
        } else {
            assert(pn.children@[j] == p.children@[j - 1]);
            assert(child_lo(pn, j, lo) == child_lo(p, j - 1, lo));
            assert(child_hi(pn, j, hi) == child_hi(p, j - 1, hi));
        }
    }
    let c = p.children@;
    let c2 = pn.children@;
    lemma_cat_split(c, i);
    assert(c2 =~= c.subrange(0, i) + seq![l, r] + c.subrange(i + 1, c.len() as int));
    lemma_cat_append(c.subrange(0, i) + seq![l, r], c.subrange(i + 1, c.len() as int));
    lemma_cat_append(c.subrange(0, i), seq![l, r]);
    assert(seq![l, r].drop_last() =~= seq![l]);
    assert(seq![l].drop_last() =~= Seq::<Node<V>>::empty());
    assert(seq![l].drop_last().len() == 0);
    assert(cat(seq![l].drop_last()) =~= Seq::<(u64, V)>::empty());
    assert(seq![l].last() == l);
    assert(seq![l, r].last() == r);
    assert(cat(seq![l]) =~= flat(l));
    assert(cat(seq![l, r]) =~= flat(l) + flat(r));
    assert(flat(pn) =~= flat(p));
}


/// After a split the parent still meets the root bounds.
pub proof fn lemma_within_split<V>(p: Node<V>, pn: Node<V>, i: int, t: int)
    requires
        within(p, t),
        p.node_type == NodeType::Internal,
        pn.node_type == NodeType::Internal,
        p.keys.len() < 2 * t - 1,
        pn.keys.len() == p.keys.len() + 1,
        0 <= i < p.children.len(),
        pn.children@ == p.children@.update(i, pn.children@[i]).insert(i + 1, pn.children@[i + 1]),
        filled(pn.children@[i], t),
        filled(pn.children@[i + 1], t),
    ensures
        within(pn, t),
{
    assert forall|j: int| 0 <= j < pn.children.len() implies filled(#[trigger] pn.children@[j], t) by {
        if j < i {
            assert(pn.children@[j] == p.children@[j]);
        } else if j > i + 1 {
            assert(pn.children@[j] == p.children@[j - 1]);
        }
    }
}

/// The first key of a node lies inside its bounds.
pub proof fn lemma_first_key<V>(n: Node<V>, lo: Option<u64>, hi: Option<u64>, h: nat)
    requires
        covers(n, lo, hi, h),
        n.keys.len() > 0,
    ensures
        at_least(n.keys@[0], lo),
{
}

/// A full root that becomes a child is filled.
pub proof fn lemma_root_filled<V>(n: Node<V>, t: int)
    requires
        within(n, t),
        n.keys.len() == 2 * t - 1,
    ensures
        filled(n, t),
{
}


/// The entries of two neighbouring children.
pub proof fn lemma_cat_pair<V>(c: Seq<Node<V>>, j: int)
    requires
        0 <= j,
        j + 1 < c.len(),
    ensures
        cat(c) == cat(c.subrange(0, j)) + flat(c[j]) + flat(c[j + 1]) + cat(c.subrange(j + 2, c.len() as int)),
{
    lemma_cat_split(c, j);
    let rest = c.subrange(j + 1, c.len() as int);
    lemma_cat_split(rest, 0);
    assert(rest.subrange(0, 0) =~= Seq::<Node<V>>::empty());
    assert(cat(rest.subrange(0, 0)) =~= Seq::<(u64, V)>::empty());
    assert(rest.subrange(1, rest.len() as int) =~= c.subrange(j + 2, c.len() as int));
    assert(rest[0] == c[j + 1]);
    assert(cat(c) =~= cat(c.subrange(0, j)) + flat(c[j]) + flat(c[j + 1]) + cat(c.subrange(j + 2, c.len() as int)));
}

/// Children `j` and `j + 1` and the routing key between them replaced.
pub proof fn lemma_pair_swap<V>(p: Node<V>, pn: Node<V>, lo: Option<u64>, hi: Option<u64>, h: nat, j: int, a: Node<V>, b: Node<V>, s: u64)
    requires
        pn.vals@ == p.vals@,
        covers(p, lo, hi, h),
        h > 0,
        0 <= j < p.keys.len(),
        covers(a, child_lo(p, j, lo), Some(s), (h - 1) as nat),
        covers(b, Some(s), child_hi(p, j + 1, hi), (h - 1) as nat),
        flat(a) + flat(b) == flat(p.children@[j]) + flat(p.children@[j + 1]),
        at_least(s, child_lo(p, j, lo)),
        at_most(s, child_hi(p, j + 1, hi)),
        pn.node_type == p.node_type,
        pn.keys@ == p.keys@.update(j, s),
        pn.children@ == p.children@.update(j, a).update(j + 1, b),
    ensures
        covers(pn, lo, hi, h),
        flat(pn) == flat(p),
{
    let m = p.keys.len() as int;
    if j > 0 {
        assert(at_least(p.keys@[j - 1], lo));
    }
    if j + 1 < m {
        assert(at_most(p.keys@[j + 1], hi));
    }
    assert forall|i: int| 0 <= i < pn.keys.len() implies at_least(#[trigger] pn.keys@[i], lo) && at_most(pn.keys@[i], hi) by {
        if i != j {
            assert(pn.keys@[i] == p.keys@[i]);
        } else {
            if j > 0 {
                assert(p.keys@[j - 1] <= s);
            }
        }
    }
    assert(keys_ascend(pn.keys@)) by {
        assert forall|x: int, y: int| 0 <= x <= y < pn.keys.len() implies pn.keys@[x] <= pn.keys@[y] by {
            if x == y {
            } else if x == j {
                assert(pn.keys@[y] == p.keys@[y]);
                if j + 1 < m {
                    assert(p.keys@[j + 1] <= p.keys@[y]);
                }
            } else if y == j {
                assert(pn.keys@[x] == p.keys@[x]);
                assert(p.keys@[x] <= p.keys@[j - 1]);
            } else {
                assert(pn.keys@[x] == p.keys@[x] && pn.keys@[y] == p.keys@[y]);
            }
        }
    }
    assert forall|i: int| 0 <= i < pn.children.len() implies covers(#[trigger] pn.children@[i], child_lo(pn, i, lo), child_hi(pn, i, hi), (h - 1) as nat) by {
        if i == j {
            assert(child_lo(pn, i, lo) == child_lo(p, j, lo));
        } else if i == j + 1 {
            assert(child_hi(pn, i, hi) == child_hi(p, j + 1, hi));
        } else {
            assert(pn.children@[i] == p.children@[i]);
            assert(child_lo(pn, i, lo) == child_lo(p, i, lo));
            assert(child_hi(pn, i, hi) == child_hi(p, i, hi));
        }
    }
    lemma_cat_pair(p.children@, j);
    lemma_cat_pair(pn.children@, j);
    assert(pn.children@.subrange(0, j) =~= p.children@.subrange(0, j));
    assert(pn.children@.subrange(j + 2, pn.children.len() as int) =~= p.children@.subrange(j + 2, p.children.len() as int));
    let pa = cat(p.children@.subrange(0, j));
    let pb = cat(p.children@.subrange(j + 2, p.children.len() as int));
    assert(pn.children@[j] == a && pn.children@[j + 1] == b);
    assert(flat(pn) =~= pa + (flat(a) + flat(b)) + pb);
    assert(flat(p) =~= pa + (flat(p.children@[j]) + flat(p.children@[j + 1])) + pb);
    assert(flat(pn) =~= flat(p));
}

/// Children `j` and `j + 1` merged into `c`, with the routing key between them dropped.
pub proof fn lemma_pair_join<V>(p: Node<V>, pn: Node<V>, lo: Option<u64>, hi: Option<u64>, h: nat, j: int, c: Node<V>)
    requires
        pn.vals@ == p.vals@,
        covers(p, lo, hi, h),
        h > 0,
        0 <= j < p.keys.len(),
        covers(c, child_lo(p, j, lo), child_hi(p, j + 1, hi), (h - 1) as nat),
        flat(c) == flat(p.children@[j]) + flat(p.children@[j + 1]),
        pn.node_type == p.node_type,
        pn.keys@ == p.keys@.remove(j),
        pn.children@ == p.children@.remove(j + 1).update(j, c),
    ensures
        covers(pn, lo, hi, h),
        flat(pn) == flat(p),
{
    let m = p.keys.len() as int;
    assert forall|i: int| 0 <= i < pn.keys.len() implies at_least(#[trigger] pn.keys@[i], lo) && at_most(pn.keys@[i], hi) by {
        if i < j {
            assert(pn.keys@[i] == p.keys@[i]);
        } else {
            assert(pn.keys@[i] == p.keys@[i + 1]);
        }
    }
    assert(keys_ascend(pn.keys@)) by {
        assert forall|x: int, y: int| 0 <= x <= y < pn.keys.len() implies pn.keys@[x] <= pn.keys@[y] by {
            let xx = if x < j { x } else { x + 1 };
            let yy = if y < j { y } else { y + 1 };
            assert(pn.keys@[x] == p.keys@[xx] && pn.keys@[y] == p.keys@[yy]);
        }
    }
    assert forall|i: int| 0 <= i < pn.children.len() implies covers(#[trigger] pn.children@[i], child_lo(pn, i, lo), child_hi(pn, i, hi), (h - 1) as nat) by {
        if i < j {
            assert(pn.children@[i] == p.children@[i]);
            assert(child_lo(pn, i, lo) == child_lo(p, i, lo));
            assert(child_hi(pn, i, hi) == child_hi(p, i, hi));
        } else if i == j {
            assert(child_lo(pn, i, lo) == child_lo(p, j, lo));
            assert(child_hi(pn, i, hi) == child_hi(p, j + 1, hi));
        } else {
            assert(pn.children@[i] == p.children@[i + 1]);
            assert(child_lo(pn, i, lo) == child_lo(p, i + 1, lo));
            assert(child_hi(pn, i, hi) == child_hi(p, i + 1, hi));
        }
    }
    lemma_cat_pair(p.children@, j);
    lemma_cat_split(pn.children@, j);
    assert(pn.children@.subrange(0, j) =~= p.children@.subrange(0, j));
    assert(pn.children@.subrange(j + 1, pn.children.len() as int) =~= p.children@.subrange(j + 2, p.children.len() as int));
    assert(flat(pn) =~= flat(p));
}


/// A leaf hands its last entry to the next leaf, whose first key it becomes.
pub proof fn lemma_leaf_borrow_left<V>(l: Node<V>, c: Node<V>, l2: Node<V>, c2: Node<V>, lo: Option<u64>, sep: u64, hi: Option<u64>)
    requires
        covers(l, lo, Some(sep), 0),
        covers(c, Some(sep), hi, 0),
        at_most(sep, hi),
        l.keys.len() >= 1,
        l2.node_type == NodeType::Leaf,
        c2.node_type == NodeType::Leaf,
        l2.children@.len() == 0,
        c2.children@.len() == 0,
        l2.keys@ == l.keys@.drop_last(),
        l2.vals@ == l.vals@.drop_last(),
        l2.next_leaf == Some(l.keys@.last()),
        c2.keys@ == seq![l.keys@.last()] + c.keys@,
        c2.vals@ == seq![l.vals@.last()] + c.vals@,
        c2.next_leaf == c.next_leaf,
    ensures
        covers(l2, lo, Some(l.keys@.last()), 0),
        covers(c2, Some(l.keys@.last()), hi, 0),
        flat(l2) + flat(c2) == flat(l) + flat(c),
        at_least(l.keys@.last(), lo),
        l.keys@.last() < sep,
{
    let k = l.keys@.last();
    let n = l.keys.len() - 1;
    assert(k == l.keys@[n]);
    assert forall|j: int| 0 <= j < l2.keys.len() implies at_least(#[trigger] l2.keys@[j], lo) && less_than(l2.keys@[j], Some(k)) by {
        assert(l2.keys@[j] == l.keys@[j]);
    }
    assert forall|j: int| 0 <= j < c2.keys.len() implies at_least(#[trigger] c2.keys@[j], Some(k)) && less_than(c2.keys@[j], hi) by {
        if j > 0 {
            assert(c2.keys@[j] == c.keys@[j - 1]);
            assert(at_least(c.keys@[j - 1], Some(sep)));
        }
    }
    assert(keys_increase(l2.keys@)) by {
        assert forall|a: int, b: int| 0 <= a < b < l2.keys.len() implies l2.keys@[a] < l2.keys@[b] by {
            assert(l2.keys@[a] == l.keys@[a] && l2.keys@[b] == l.keys@[b]);
        }
    }
    assert(keys_increase(c2.keys@)) by {
        assert forall|a: int, b: int| 0 <= a < b < c2.keys.len() implies c2.keys@[a] < c2.keys@[b] by {
            assert(c2.keys@[b] == c.keys@[b - 1]);
            assert(at_least(c.keys@[b - 1], Some(sep)));
            if a > 0 {
                assert(c2.keys@[a] == c.keys@[a - 1]);
            }
        }
    }
    assert(flat(l2) + flat(c2) =~= flat(l) + flat(c));
}

/// A leaf takes the first entry of the next leaf, whose second key becomes the boundary.
pub proof fn lemma_leaf_borrow_right<V>(c: Node<V>, r: Node<V>, c2: Node<V>, r2: Node<V>, lo: Option<u64>, sep: u64, hi: Option<u64>)
    requires
        covers(c, lo, Some(sep), 0),
        covers(r, Some(sep), hi, 0),
        at_least(sep, lo),
        r.keys.len() >= 2,
        c2.node_type == NodeType::Leaf,
        r2.node_type == NodeType::Leaf,
        c2.children@.len() == 0,
        r2.children@.len() == 0,
        c2.keys@ == c.keys@.push(r.keys@[0]),
        c2.vals@ == c.vals@.push(r.vals@[0]),
        c2.next_leaf == Some(r.keys@[1]),
        r2.keys@ == r.keys@.subrange(1, r.keys.len() as int),
        r2.vals@ == r.vals@.subrange(1, r.vals.len() as int),
        r2.next_leaf == r.next_leaf,
    ensures
        covers(c2, lo, Some(r.keys@[1]), 0),
        covers(r2, Some(r.keys@[1]), hi, 0),
        flat(c2) + flat(r2) == flat(c) + flat(r),
        at_least(r.keys@[1], lo),
        at_most(r.keys@[1], hi),
        sep < r.keys@[1],
{
    let k = r.keys@[1];
    assert(r.keys@[0] < k);
    assert(at_least(r.keys@[0], Some(sep)));
    assert forall|j: int| 0 <= j < c2.keys.len() implies at_least(#[trigger] c2.keys@[j], lo) && less_than(c2.keys@[j], Some(k)) by {
        if j < c.keys.len() {
            assert(c2.keys@[j] == c.keys@[j]);
        }
    }
    assert forall|j: int| 0 <= j < r2.keys.len() implies at_least(#[trigger] r2.keys@[j], Some(k)) && less_than(r2.keys@[j], hi) by {
        assert(r2.keys@[j] == r.keys@[j + 1]);
    }
    assert(keys_increase(c2.keys@)) by {
        assert forall|a: int, b: int| 0 <= a < b < c2.keys.len() implies c2.keys@[a] < c2.keys@[b] by {
            assert(c2.keys@[a] == c.keys@[a]);
            if b < c.keys.len() {
                assert(c2.keys@[b] == c.keys@[b]);
            }
        }
    }
    assert(keys_increase(r2.keys@)) by {
        assert forall|a: int, b: int| 0 <= a < b < r2.keys.len() implies r2.keys@[a] < r2.keys@[b] by {
            assert(r2.keys@[a] == r.keys@[a + 1] && r2.keys@[b] == r.keys@[b + 1]);
        }
    }
    assert(flat(c2) + flat(r2) =~= flat(c) + flat(r));
}

/// Two neighbouring leaves joined into one.
pub proof fn lemma_leaf_join<V>(c: Node<V>, r: Node<V>, j: Node<V>, lo: Option<u64>, sep: u64, hi: Option<u64>)
    requires
        covers(c, lo, Some(sep), 0),
        covers(r, Some(sep), hi, 0),
        j.node_type == NodeType::Leaf,
        j.children@.len() == 0,
        j.keys@ == c.keys@ + r.keys@,
        j.vals@ == c.vals@ + r.vals@,
        j.next_leaf == r.next_leaf,
        at_least(sep, lo),
        at_most(sep, hi),
    ensures
        covers(j, lo, hi, 0),
        flat(j) == flat(c) + flat(r),
{
    assert forall|x: int| 0 <= x < j.keys.len() implies at_least(#[trigger] j.keys@[x], lo) && less_than(j.keys@[x], hi) by {
        if x < c.keys.len() {
            assert(j.keys@[x] == c.keys@[x]);
            assert(less_than(c.keys@[x], Some(sep)));
        } else {
            assert(j.keys@[x] == r.keys@[x - c.keys.len()]);
            assert(at_least(r.keys@[x - c.keys.len()], Some(sep)));
        }
    }
    assert(keys_increase(j.keys@)) by {
        assert forall|a: int, b: int| 0 <= a < b < j.keys.len() implies j.keys@[a] < j.keys@[b] by {
            let n = c.keys.len() as int;
            if b < n {
                assert(j.keys@[a] == c.keys@[a] && j.keys@[b] == c.keys@[b]);
            } else if a < n {
                assert(j.keys@[a] == c.keys@[a] && j.keys@[b] == r.keys@[b - n]);
                assert(less_than(c.keys@[a], Some(sep)));
                assert(at_least(r.keys@[b - n], Some(sep)));
            } else {
                assert(j.keys@[a] == r.keys@[a - n] && j.keys@[b] == r.keys@[b - n]);
            }
        }
    }
    assert(flat(j) =~= flat(c) + flat(r));
}


/// The entries of a single subtree.
pub proof fn lemma_cat_one<V>(x: Node<V>)
    ensures
        cat(seq![x]) == flat(x),
{
    assert(seq![x].drop_last() =~= Seq::<Node<V>>::empty());
    assert(cat(seq![x].drop_last()) =~= Seq::<(u64, V)>::empty());
    assert(seq![x].last() == x);
    assert(cat(seq![x]) =~= flat(x));
}

/// An internal node hands its last key and child through the parent to the next node.
pub proof fn lemma_int_borrow_left<V>(l: Node<V>, c: Node<V>, l2: Node<V>, c2: Node<V>, lo: Option<u64>, sep: u64, hi: Option<u64>, h: nat)
    requires
        l2.vals.len() == 0 && c2.vals.len() == 0,
        covers(l, lo, Some(sep), h),
        covers(c, Some(sep), hi, h),
        h > 0,
        at_most(sep, hi),
        l.keys.len() >= 1,
        l2.node_type == NodeType::Internal,
        c2.node_type == NodeType::Internal,
        l2.keys@ == l.keys@.drop_last(),
        l2.children@ == l.children@.drop_last(),
        c2.keys@ == seq![sep] + c.keys@,
        c2.children@ == seq![l.children@.last()] + c.children@,
    ensures
        covers(l2, lo, Some(l.keys@.last()), h),
        covers(c2, Some(l.keys@.last()), hi, h),
        flat(l2) + flat(c2) == flat(l) + flat(c),
        at_least(l.keys@.last(), lo),
        l.keys@.last() <= sep,
{
    let k = l.keys@.last();
    let ml = l.keys.len() as int;
    assert(k == l.keys@[ml - 1]);
    assert forall|j: int| 0 <= j < l2.children.len() implies covers(#[trigger] l2.children@[j], child_lo(l2, j, lo), child_hi(l2, j, Some(k)), (h - 1) as nat) by {
        assert(l2.children@[j] == l.children@[j]);
        assert(child_lo(l2, j, lo) == child_lo(l, j, lo));
        assert(child_hi(l2, j, Some(k)) == child_hi(l, j, Some(sep)));
    }
    assert forall|j: int| 0 <= j < l2.keys.len() implies at_least(#[trigger] l2.keys@[j], lo) && at_most(l2.keys@[j], Some(k)) by {
        assert(l2.keys@[j] == l.keys@[j]);
    }
    assert(keys_ascend(l2.keys@)) by {
        assert forall|a: int, b: int| 0 <= a <= b < l2.keys.len() implies l2.keys@[a] <= l2.keys@[b] by {
            assert(l2.keys@[a] == l.keys@[a] && l2.keys@[b] == l.keys@[b]);
        }
    }
    let x = l.children@[ml];
    assert(covers(x, child_lo(l, ml, lo), child_hi(l, ml, Some(sep)), (h - 1) as nat));
    assert forall|j: int| 0 <= j < c2.children.len() implies covers(#[trigger] c2.children@[j], child_lo(c2, j, Some(k)), child_hi(c2, j, hi), (h - 1) as nat) by {
        if j == 0 {
            assert(c2.children@[j] == x);
        } else {
            assert(c2.children@[j] == c.children@[j - 1]);
            assert(child_lo(c2, j, Some(k)) == child_lo(c, j - 1, Some(sep)));
            assert(child_hi(c2, j, hi) == child_hi(c, j - 1, hi));
        }
    }
    assert forall|j: int| 0 <= j < c2.keys.len() implies at_least(#[trigger] c2.keys@[j], Some(k)) && at_most(c2.keys@[j], hi) by {
        if j > 0 {
            assert(c2.keys@[j] == c.keys@[j - 1]);
            assert(at_least(c.keys@[j - 1], Some(sep)));
        }
    }
    assert(keys_ascend(c2.keys@)) by {
        assert forall|a: int, b: int| 0 <= a <= b < c2.keys.len() implies c2.keys@[a] <= c2.keys@[b] by {
            if b > 0 {
                assert(c2.keys@[b] == c.keys@[b - 1]);
                assert(at_least(c.keys@[b - 1], Some(sep)));
            }
            if a > 0 {
                assert(c2.keys@[a] == c.keys@[a - 1]);
            }
        }
    }
    lemma_cat_append(seq![x], c.children@);
    lemma_cat_one(x);
    assert(c2.children@ =~= seq![x] + c.children@);
    assert(l.children@.last() == x);
    assert(flat(l2) + flat(c2) =~= flat(l) + flat(c));
}

/// An internal node takes the parent's routing key and the first child of the next node.
pub proof fn lemma_int_borrow_right<V>(c: Node<V>, r: Node<V>, c2: Node<V>, r2: Node<V>, lo: Option<u64>, sep: u64, hi: Option<u64>, h: nat)
    requires
        c2.vals.len() == 0 && r2.vals.len() == 0,
        covers(c, lo, Some(sep), h),
        covers(r, Some(sep), hi, h),
        h > 0,
        at_least(sep, lo),
        r.keys.len() >= 1,
        c2.node_type == NodeType::Internal,
        r2.node_type == NodeType::Internal,
        c2.keys@ == c.keys@.push(sep),
        c2.children@ == c.children@.push(r.children@[0]),
        r2.keys@ == r.keys@.subrange(1, r.keys.len() as int),
        r2.children@ == r.children@.subrange(1, r.children.len() as int),
    ensures
        covers(c2, lo, Some(r.keys@[0]), h),
        covers(r2, Some(r.keys@[0]), hi, h),
        flat(c2) + flat(r2) == flat(c) + flat(r),
        at_least(r.keys@[0], lo),
        at_most(r.keys@[0], hi),
{
    let k = r.keys@[0];
    let mc = c.keys.len() as int;
    let y = r.children@[0];
    assert(at_least(k, Some(sep)));
    assert(covers(y, child_lo(r, 0, Some(sep)), child_hi(r, 0, hi), (h - 1) as nat));
    assert forall|j: int| 0 <= j < c2.children.len() implies covers(#[trigger] c2.children@[j], child_lo(c2, j, lo), child_hi(c2, j, Some(k)), (h - 1) as nat) by {
        if j <= mc {
            assert(c2.children@[j] == c.children@[j]);
            assert(child_lo(c2, j, lo) == child_lo(c, j, lo));
            assert(child_hi(c2, j, Some(k)) == child_hi(c, j, Some(sep)));
        } else {
            assert(c2.children@[j] == y);
        }
    }
    assert forall|j: int| 0 <= j < c2.keys.len() implies at_least(#[trigger] c2.keys@[j], lo) && at_most(c2.keys@[j], Some(k)) by {
        if j < mc {
            assert(c2.keys@[j] == c.keys@[j]);
        }
    }
    assert(keys_ascend(c2.keys@)) by {
        assert forall|a: int, b: int| 0 <= a <= b < c2.keys.len() implies c2.keys@[a] <= c2.keys@[b] by {
            if a < mc {
                assert(c2.keys@[a] == c.keys@[a]);
                assert(at_most(c.keys@[a], Some(sep)));
            }
            if b < mc {
                assert(c2.keys@[b] == c.keys@[b]);
            }
        }
    }
    assert forall|j: int| 0 <= j < r2.children.len() implies covers(#[trigger] r2.children@[j], child_lo(r2, j, Some(k)), child_hi(r2, j, hi), (h - 1) as nat) by {
        assert(r2.children@[j] == r.children@[j + 1]);
        assert(child_lo(r2, j, Some(k)) == child_lo(r, j + 1, Some(sep)));
        assert(child_hi(r2, j, hi) == child_hi(r, j + 1, hi));
    }
    assert forall|j: int| 0 <= j < r2.keys.len() implies at_least(#[trigger] r2.keys@[j], Some(k)) && at_most(r2.keys@[j], hi) by {
        assert(r2.keys@[j] == r.keys@[j + 1]);
    }
    assert(keys_ascend(r2.keys@)) by {
        assert forall|a: int, b: int| 0 <= a <= b < r2.keys.len() implies r2.keys@[a] <= r2.keys@[b] by {
            assert(r2.keys@[a] == r.keys@[a + 1] && r2.keys@[b] == r.keys@[b + 1]);
        }
    }
    assert(c2.children@.drop_last() =~= c.children@);
    assert(c2.children@.last() == y);
    lemma_cat_append(seq![y], r2.children@);
    lemma_cat_one(y);
    assert(seq![y] + r2.children@ =~= r.children@);
    assert(flat(c2) + flat(r2) =~= flat(c) + flat(r));
}

/// Two neighbouring internal nodes joined around the routing key between them.
pub proof fn lemma_int_join<V>(c: Node<V>, r: Node<V>, j: Node<V>, lo: Option<u64>, sep: u64, hi: Option<u64>, h: nat)
    requires
        j.vals.len() == 0,
        covers(c, lo, Some(sep), h),
        covers(r, Some(sep), hi, h),
        h > 0,
        at_least(sep, lo),
        at_most(sep, hi),
        j.node_type == NodeType::Internal,
        j.keys@ == c.keys@.push(sep) + r.keys@,
        j.children@ == c.children@ + r.children@,
    ensures
        covers(j, lo, hi, h),
        flat(j) == flat(c) + flat(r),
{
    let mc = c.keys.len() as int;
    assert forall|i: int| 0 <= i < j.children.len() implies covers(#[trigger] j.children@[i], child_lo(j, i, lo), child_hi(j, i, hi), (h - 1) as nat) by {
        if i <= mc {
            assert(j.children@[i] == c.children@[i]);
            assert(child_lo(j, i, lo) == child_lo(c, i, lo));
            assert(child_hi(j, i, hi) == child_hi(c, i, Some(sep)));
        } else {
            assert(j.children@[i] == r.children@[i - mc - 1]);
            assert(child_lo(j, i, lo) == child_lo(r, i - mc - 1, Some(sep)));
            assert(child_hi(j, i, hi) == child_hi(r, i - mc - 1, hi));
        }
    }
    assert forall|i: int| 0 <= i < j.keys.len() implies at_least(#[trigger] j.keys@[i], lo) && at_most(j.keys@[i], hi) by {
        if i < mc {
            assert(j.keys@[i] == c.keys@[i]);
            assert(at_most(c.keys@[i], Some(sep)));
        } else if i > mc {
            assert(j.keys@[i] == r.keys@[i - mc - 1]);
            assert(at_least(r.keys@[i - mc - 1], Some(sep)));
        }
    }
    assert(keys_ascend(j.keys@)) by {
        assert forall|a: int, b: int| 0 <= a <= b < j.keys.len() implies j.keys@[a] <= j.keys@[b] by {
            if a < mc {
                assert(j.keys@[a] == c.keys@[a]);
                assert(at_most(c.keys@[a], Some(sep)));
            } else if a > mc {
                assert(j.keys@[a] == r.keys@[a - mc - 1]);
            }
            if b < mc {
                assert(j.keys@[b] == c.keys@[b]);
            } else if b > mc {
                assert(j.keys@[b] == r.keys@[b - mc - 1]);
                assert(at_least(r.keys@[b - mc - 1], Some(sep)));
            }
        }
    }
    lemma_cat_append(c.children@, r.children@);
}

/// Each entry of the concatenation comes from one of the parts.
pub proof fn lemma_cat_index<V>(c: Seq<Node<V>>, p: int)
    requires
        0 <= p < cat(c).len(),
    ensures
        exists|i: int, q: int| 0 <= i < c.len() && 0 <= q < flat(c[i]).len() && cat(c)[p] == #[trigger] flat(c[i])[q],
    decreases c.len(),
{
    let a = cat(c.drop_last());
    if p < a.len() {
        lemma_cat_index(c.drop_last(), p);
        let (i, q) = choose|i: int, q: int| 0 <= i < c.drop_last().len() && 0 <= q < flat(c.drop_last()[i]).len()
            && a[p] == #[trigger] flat(c.drop_last()[i])[q];
        assert(c.drop_last()[i] == c[i]);
        assert(cat(c)[p] == flat(c[i])[q]);
    } else {
        assert(cat(c)[p] == flat(c.last())[p - a.len()]);
        assert(cat(c)[p] == flat(c[c.len() - 1])[p - a.len()]);
    }
}

/// Sorted parts in increasing order make a sorted whole.
pub proof fn lemma_cat_sorted<V>(c: Seq<Node<V>>)
    requires
        forall|i: int| 0 <= i < c.len() ==> sorted(#[trigger] flat(c[i])),
        forall|i: int, j: int, p: int, q: int| 0 <= i < j < c.len() && 0 <= p < flat(c[i]).len() && 0 <= q < flat(c[j]).len()
            ==> #[trigger] flat(c[i])[p].0 < #[trigger] flat(c[j])[q].0,
    ensures
        sorted(cat(c)),
    decreases c.len(),
{
    if c.len() > 0 {
        let d = c.drop_last();
        assert forall|i: int| 0 <= i < d.len() implies sorted(#[trigger] flat(d[i])) by {
            assert(d[i] == c[i]);
        }
        assert forall|i: int, j: int, p: int, q: int| 0 <= i < j < d.len() && 0 <= p < flat(d[i]).len() && 0 <= q < flat(d[j]).len()
            implies #[trigger] flat(d[i])[p].0 < #[trigger] flat(d[j])[q].0 by {
            assert(d[i] == c[i] && d[j] == c[j]);
        }
        lemma_cat_sorted(d);
        let last = c.len() - 1;
        assert(sorted(flat(c[last])));
        assert forall|p: int, q: int| 0 <= p < cat(d).len() && 0 <= q < flat(c.last()).len() implies #[trigger] cat(d)[p].0 < #[trigger] flat(c.last())[q].0 by {
            lemma_cat_index(d, p);
            let (i, r) = choose|i: int, r: int| 0 <= i < d.len() && 0 <= r < flat(d[i]).len() && cat(d)[p] == #[trigger] flat(d[i])[r];
            assert(d[i] == c[i]);
            assert(flat(c[i])[r].0 < flat(c[last])[q].0);
        }
        lemma_sorted_concat(cat(d), flat(c.last()));
    }
}

/// A covering subtree holds sorted entries inside its bounds.
pub proof fn lemma_covers<V>(n: Node<V>, lo: Option<u64>, hi: Option<u64>, h: nat)
    requires
        covers(n, lo, hi, h),
    ensures
        sorted(flat(n)),
        forall|p: int| 0 <= p < flat(n).len() ==> at_least(#[trigger] flat(n)[p].0, lo) && less_than(flat(n)[p].0, hi),
    decreases n,
{
    if h == 0 {
        let f = flat(n);
        assert forall|p: int, q: int| 0 <= p < q < f.len() implies #[trigger] f[p].0 < #[trigger] f[q].0 by {
            assert(f[p].0 == n.keys@[p] && f[q].0 == n.keys@[q]);
        }
        assert forall|p: int| 0 <= p < f.len() implies at_least(#[trigger] f[p].0, lo) && less_than(f[p].0, hi) by {
            assert(f[p].0 == n.keys@[p]);
        }
    } else {
        let c = n.children@;
        assert forall|i: int| 0 <= i < c.len() implies sorted(#[trigger] flat(c[i]))
            && (forall|p: int| 0 <= p < flat(c[i]).len() ==> at_least(#[trigger] flat(c[i])[p].0, child_lo(n, i, lo))
                && less_than(flat(c[i])[p].0, child_hi(n, i, hi))) by {
            lemma_covers(c[i], child_lo(n, i, lo), child_hi(n, i, hi), (h - 1) as nat);
        }
        assert forall|i: int, j: int, p: int, q: int| 0 <= i < j < c.len() && 0 <= p < flat(c[i]).len() && 0 <= q < flat(c[j]).len()
            implies #[trigger] flat(c[i])[p].0 < #[trigger] flat(c[j])[q].0 by {
            assert(less_than(flat(c[i])[p].0, child_hi(n, i, hi)));
            assert(at_least(flat(c[j])[q].0, child_lo(n, j, lo)));
            assert(n.keys@[i] <= n.keys@[j - 1]);
        }
        lemma_cat_sorted(c);
        assert forall|p: int| 0 <= p < flat(n).len() implies at_least(#[trigger] flat(n)[p].0, lo) && less_than(flat(n)[p].0, hi) by {
            lemma_cat_index(c, p);
            let (i, r) = choose|i: int, r: int| 0 <= i < c.len() && 0 <= r < flat(c[i]).len() && cat(c)[p] == #[trigger] flat(c[i])[r];
            assert(at_least(flat(c[i])[r].0, child_lo(n, i, lo)));
            assert(less_than(flat(c[i])[r].0, child_hi(n, i, hi)));
            if i > 0 {
                assert(at_least(n.keys@[i - 1], lo));
            }
            if i < n.keys.len() {
                assert(at_most(n.keys@[i], hi));
            }
        }
    }
}


/// Keys inside the bounds of child `i` are held by the node exactly as by the child.
pub proof fn lemma_route<V>(n: Node<V>, lo: Option<u64>, hi: Option<u64>, h: nat, i: int)
    requires
        covers(n, lo, hi, h),
        h > 0,
        0 <= i < n.children.len(),
    ensures
        forall|x: u64| at_least(x, child_lo(n, i, lo)) && less_than(x, child_hi(n, i, hi)) ==> {
            &&& (#[trigger] entries_map(flat(n)).contains_key(x) <==> entries_map(flat(n.children@[i])).contains_key(x))
            &&& (entries_map(flat(n)).contains_key(x) ==> entries_map(flat(n))[x] == entries_map(flat(n.children@[i]))[x])
        },
{
    let c = n.children@;
    lemma_covers(n, lo, hi, h);
    lemma_cat_split(c, i);
    let a = cat(c.subrange(0, i));
    let x = flat(c[i]);
    let b = cat(c.subrange(i + 1, c.len() as int));
    assert(flat(n) == a + x + b);
    lemma_sorted_concat(a + x, b);
    lemma_map_concat(a + x, b);
    lemma_map_concat(a, x);
    assert forall|y: u64| at_least(y, child_lo(n, i, lo)) && less_than(y, child_hi(n, i, hi)) implies
        !entries_map(a).contains_key(y) && !entries_map(b).contains_key(y) by {
        if has_key(a, y) {
            let p = choose|p: int| 0 <= p < a.len() && #[trigger] a[p].0 == y;
            lemma_cat_index(c.subrange(0, i), p);
            let (j, q) = choose|j: int, q: int| 0 <= j < c.subrange(0, i).len() && 0 <= q < flat(c.subrange(0, i)[j]).len()
                && a[p] == #[trigger] flat(c.subrange(0, i)[j])[q];
            assert(c.subrange(0, i)[j] == c[j]);
            lemma_covers(c[j], child_lo(n, j, lo), child_hi(n, j, hi), (h - 1) as nat);
            assert(less_than(flat(c[j])[q].0, child_hi(n, j, hi)));
            assert(n.keys@[j] <= n.keys@[i - 1]);
        }
        if has_key(b, y) {
            let p = choose|p: int| 0 <= p < b.len() && #[trigger] b[p].0 == y;
            let d = c.subrange(i + 1, c.len() as int);
            lemma_cat_index(d, p);
            let (j, q) = choose|j: int, q: int| 0 <= j < d.len() && 0 <= q < flat(d[j]).len()
                && b[p] == #[trigger] flat(d[j])[q];
            assert(d[j] == c[i + 1 + j]);
            lemma_covers(c[i + 1 + j], child_lo(n, i + 1 + j, lo), child_hi(n, i + 1 + j, hi), (h - 1) as nat);
            assert(at_least(flat(c[i + 1 + j])[q].0, child_lo(n, i + 1 + j, lo)));
            assert(n.keys@[i] <= n.keys@[i + j]);
        }
    }
}


pub open spec fn leaf_ok<V>(leaf: Node<V>) -> bool {
    &&& leaf.node_type == NodeType::Leaf
    &&& leaf.keys.len() == leaf.vals.len()
    &&& sorted(flat(leaf))
    &&& forall|i: int| 0 <= i < leaf.keys.len() ==> less_than(#[trigger] leaf.keys@[i], leaf.next_leaf)
}

/// One leaf of a range scan: entered at `cur`, it holds every key of `m` from
/// `cur` up to `up`, and none of its keys lies above `up`.
pub proof fn lemma_leaf_step<V>(m: Map<u64, V>, leaf: Node<V>, low: int, cur: u64, high: int, up: int)
    requires
        leaf_ok(leaf),
        low <= cur,
        cur - 1 <= up,
        forall|x: u64| cur <= x && x <= up ==> {
            &&& (#[trigger] m.contains_key(x) <==> entries_map(flat(leaf)).contains_key(x))
            &&& (m.contains_key(x) ==> m[x] == entries_map(flat(leaf))[x])
        },
        forall|j: int| 0 <= j < leaf.keys.len() ==> leaf.keys@[j] <= up,
        up >= high || forall|j: int| 0 <= j < leaf.keys.len() ==> leaf.keys@[j] <= high,
    ensures
        values_in_range(m, low, if up < high { up } else { high }) == values_in_range(
            m,
            low,
            if cur - 1 < high { cur - 1 } else { high },
        ) + range_filter(flat(leaf), cur as int, high),
{
    let f = flat(leaf);
    let a = if cur - 1 < high { cur - 1 } else { high };
    let b = if up < high { up } else { high };
    assert forall|j: int| 0 <= j < f.len() implies f[j].0 == leaf.keys@[j] by {}
    if low > high {
        crate::range_model::lemma_range_none(m, low, a);
        crate::range_model::lemma_range_none(m, low, b);
        lemma_range_filter_none(f, cur as int, high);
        assert(values_in_range(m, low, b) =~= values_in_range(m, low, a) + range_filter(f, cur as int, high));
    } else if a == high {
        lemma_range_filter_none(f, cur as int, high);
        assert(values_in_range(m, low, b) =~= values_in_range(m, low, a) + range_filter(f, cur as int, high));
    } else {
        lemma_range_split(m, low, cur as int, b);
        lemma_range_agree(m, entries_map(f), cur as int, b);
        lemma_range_filter_map(f, cur as int, b);
        lemma_filter_same(f, cur as int, b, high);
    }
}

/// Two upper bounds that no key of `s` lies between filter alike.
pub proof fn lemma_filter_same<V>(s: Seq<(u64, V)>, low: int, h1: int, h2: int)
    requires
        forall|j: int| 0 <= j < s.len() ==> (#[trigger] s[j].0 <= h1 <==> s[j].0 <= h2),
    ensures
        range_filter(s, low, h1) == range_filter(s, low, h2),
    decreases s.len(),
{
    if s.len() > 0 {
        lemma_filter_same(s.drop_last(), low, h1, h2);
        assert(s.last() == s[s.len() - 1]);
    }
}


/// The entries of `s` with key `k`, in order.
pub open spec fn with_key<V>(s: Seq<(u64, V)>, k: u64) -> Seq<(u64, V)> {
    s.filter(|e: (u64, V)| e.0 == k)
}

/// `m` after inserting the pairs of `s` one after the other.
pub open spec fn insert_all<V>(m: Map<u64, V>, s: Seq<(u64, V)>) -> Map<u64, V>
    decreases s.len(),
{
    if s.len() == 0 {
        m
    } else {
        insert_all(m, s.drop_last()).insert(s.last().0, s.last().1)
    }
}

/// What a run of inserts leaves at key `k`: the last pair given for `k`, if any.
pub proof fn lemma_insert_all_key<V>(m: Map<u64, V>, s: Seq<(u64, V)>, k: u64)
    ensures
        insert_all(m, s).contains_key(k) == (m.contains_key(k) || with_key(s, k).len() > 0),
        with_key(s, k).len() > 0 ==> insert_all(m, s)[k] == with_key(s, k).last().1,
        with_key(s, k).len() == 0 && m.contains_key(k) ==> insert_all(m, s)[k] == m[k],
    decreases s.len(),
{
    reveal(Seq::filter);
    if s.len() > 0 {
        lemma_insert_all_key(m, s.drop_last(), k);
        let f = with_key(s, k);
        if s.last().0 == k {
            assert(f == with_key(s.drop_last(), k).push(s.last()));
        } else {
            assert(f == with_key(s.drop_last(), k));
        }
    }
}

/// Two runs of inserts that give each key the same pairs in the same order agree.
pub proof fn lemma_insert_all_same<V>(m: Map<u64, V>, s1: Seq<(u64, V)>, s2: Seq<(u64, V)>)
    requires
        forall|k: u64| #[trigger] with_key(s1, k) == with_key(s2, k),
    ensures
        insert_all(m, s1) == insert_all(m, s2),
{
    assert forall|k: u64| #[trigger] insert_all(m, s1).contains_key(k) == insert_all(m, s2).contains_key(k)
        && (insert_all(m, s1).contains_key(k) ==> insert_all(m, s1)[k] == insert_all(m, s2)[k]) by {
        lemma_insert_all_key(m, s1, k);
        lemma_insert_all_key(m, s2, k);
        assert(with_key(s1, k) == with_key(s2, k));
    }
    assert(insert_all(m, s1) =~= insert_all(m, s2));
}

/// Relies on `slice::sort_by_key`, which the standard library documents as a stable
/// sort: afterwards keys never decrease, and the pairs of each key keep their order.
#[verifier::external_body]
fn sort_by_key_stable<V>(pairs: &mut Vec<(u64, V)>)
    ensures
        final(pairs)@.len() == old(pairs)@.len(),
        forall|i: int, j: int| 0 <= i <= j < final(pairs)@.len() ==> final(pairs)@[i].0 <= final(pairs)@[j].0,
        forall|k: u64| #[trigger] with_key(final(pairs)@, k) == with_key(old(pairs)@, k),
{
    pairs.sort_by_key(|p| p.0);
}


/// The elements of a prefix one longer.
pub proof fn lemma_prefix_set(s: Seq<u64>, i: int)
    requires
        0 <= i < s.len(),
    ensures
        s.subrange(0, i + 1).to_set() == s.subrange(0, i).to_set().insert(s[i]),
{
    let a = s.subrange(0, i + 1);
    let b = s.subrange(0, i);
    assert forall|x: u64| a.to_set().contains(x) <==> b.to_set().insert(s[i]).contains(x) by {
        if a.to_set().contains(x) {
            let j = choose|j: int| 0 <= j < a.len() && a[j] == x;
            if j < i {
                assert(b[j] == x);
            }
        }
        if b.to_set().contains(x) {
            let j = choose|j: int| 0 <= j < b.len() && b[j] == x;
            assert(a[j] == x);
        }
        if x == s[i] {
            assert(a[i] == x);
        }
    }
    assert(a.to_set() =~= b.to_set().insert(s[i]));
}


/// The bytes of one node: its structure and one slot per key and per value held.
pub open spec fn node_bytes<V>(n: Node<V>) -> nat {
    vstd::layout::size_of::<Node<V>>() + n.keys@.len() * vstd::layout::size_of::<u64>() + n.vals@.len()
        * vstd::layout::size_of::<V>()
}

/// The bytes of the subtrees `c`.
pub open spec fn bytes_all<V>(c: Seq<Node<V>>) -> nat
    decreases c,
{
    if c.len() == 0 {
        0
    } else {
        bytes_all(c.drop_last()) + tree_bytes(c.last())
    }
}

/// The bytes of a subtree: `node_bytes` summed over its nodes.
pub open spec fn tree_bytes<V>(n: Node<V>) -> nat
    decreases n,
{
    node_bytes(n) + bytes_all(n.children@)
}

/// Relies on `Vec::capacity`, which is never below the length.
#[verifier::external_body]
fn capacity_of<T>(v: &Vec<T>) -> (r: usize)
    ensures
        r >= v.len(),
{
    v.capacity()
}

/// `x`, or `usize::MAX` where `x` is larger.
pub open spec fn capped(x: int) -> int {
    if x > usize::MAX {
        usize::MAX as int
    } else {
        x
    }
}

/// A saturating sum is at least the capped sum of what its parts bound.
proof fn lemma_capped_sum(x: int, y: int, a: int, b: int)
    requires
        0 <= x <= usize::MAX,
        0 <= y <= usize::MAX,
        a >= 0,
        b >= 0,
        x >= capped(a),
        y >= capped(b),
    ensures
        (if x + y > usize::MAX { usize::MAX as int } else { x + y }) >= capped(a + b),
{
}

/// `a * b`, or `usize::MAX` where the product does not fit.
fn mul_or_max(a: usize, b: usize) -> (r: usize)
    ensures
        r == (if a * b > usize::MAX { usize::MAX as int } else { a * b }),
{
    match a.checked_mul(b) {
        Some(p) => p,
        None => usize::MAX,
    }
}

/// A lower estimate of the bytes a subtree takes: at least `tree_bytes`, unless
/// the sum reaches `usize::MAX`.
fn node_memory<V>(node: &Node<V>) -> (r: usize)
    ensures
        r as int >= capped(tree_bytes(*node) as int),
    decreases *node,
{
    let ghost sz = vstd::layout::size_of::<Node<V>>() as int;
    let ghost kb: int = (node.keys@.len() * vstd::layout::size_of::<u64>()) as int;
    let ghost vb: int = (node.vals@.len() * vstd::layout::size_of::<V>()) as int;
    let base: usize = core::mem::size_of::<Node<V>>();
    let kc = capacity_of(&node.keys);
    let km = mul_or_max(kc, core::mem::size_of::<u64>());
    proof {
        assert(kc * vstd::layout::size_of::<u64>() >= kb) by (nonlinear_arith)
            requires kc >= node.keys@.len(), kb == node.keys@.len() * vstd::layout::size_of::<u64>();
        assert(kb >= 0) by (nonlinear_arith)
            requires kb == node.keys@.len() * vstd::layout::size_of::<u64>();
        lemma_capped_sum(base as int, km as int, sz, kb);
    }
    let mut total: usize = base.saturating_add(km);
    let vc = capacity_of(&node.vals);
    let vm = mul_or_max(vc, core::mem::size_of::<V>());
    proof {
        assert(vc * vstd::layout::size_of::<V>() >= vb) by (nonlinear_arith)
            requires vc >= node.vals@.len(), vb == node.vals@.len() * vstd::layout::size_of::<V>();
        assert(vb >= 0) by (nonlinear_arith)
            requires vb == node.vals@.len() * vstd::layout::size_of::<V>();
        lemma_capped_sum(total as int, vm as int, sz + kb, vb);
    }
    total = total.saturating_add(vm);
    let mut i: usize = 0;
    proof {
        assert(node.children@.subrange(0, 0) =~= Seq::<Node<V>>::empty());
        assert(node_bytes(*node) == sz + kb + vb);
    }
    while i < node.children.len()
        invariant
            0 <= i <= node.children.len(),
            total as int >= capped((node_bytes(*node) + bytes_all(node.children@.subrange(0, i as int))) as int),
        decreases node.children.len() - i,
    {
        let c = node_memory(&node.children[i]);
        proof {
            let a = bytes_all(node.children@.subrange(0, i as int));
            assert(node.children@.subrange(0, i + 1).drop_last() =~= node.children@.subrange(0, i as int));
            assert(node.children@.subrange(0, i + 1).last() == node.children@[i as int]);
            assert(bytes_all(node.children@.subrange(0, i + 1)) == a + tree_bytes(node.children@[i as int]));
            lemma_capped_sum(total as int, c as int, (node_bytes(*node) + a) as int, tree_bytes(node.children@[i as int]) as int);
        }
        total = total.saturating_add(c);
        i += 1;
    }
    proof {
        assert(node.children@.subrange(0, i as int) =~= node.children@);
    }
    total
}

impl<V> Node<V> {
    /// An empty leaf.
    fn new_leaf(next_leaf: Option<u64>) -> (n: Self)
        ensures
            n.node_type == NodeType::Leaf,
            n.keys@.len() == 0,
            n.vals@.len() == 0,
            n.children@.len() == 0,
            n.next_leaf == next_leaf,
    {
        Node { node_type: NodeType::Leaf, keys: Vec::new(), vals: Vec::new(), children: Vec::new(), next_leaf }
    }

    /// An internal node without keys or children.
    fn new_internal() -> (n: Self)
        ensures
            n.node_type == NodeType::Internal,
            n.keys@.len() == 0,
            n.vals@.len() == 0,
            n.children@.len() == 0,
            n.next_leaf.is_none(),
    {
        Node { node_type: NodeType::Internal, keys: Vec::new(), vals: Vec::new(), children: Vec::new(), next_leaf: None }
    }
}

pub struct BPTree<V> {
    root: Node<V>,
    min_degree: usize,
    height: Ghost<nat>,
}

impl<V> View for BPTree<V> {
    type V = Map<u64, V>;

    closed spec fn view(&self) -> Map<u64, V> {
        entries_map(flat(self.root))
    }
}

/// Child index that routes `key`: the number of routing keys at most `key`.
fn route(keys: &Vec<u64>, key: u64) -> (i: usize)
    requires
        keys_ascend(keys@),
    ensures
        i <= keys.len(),
        i > 0 ==> keys@[i - 1] <= key,
        i < keys.len() ==> key < keys@[i as int],
{
    let mut i: usize = 0;
    while i < keys.len() && keys[i] <= key
        invariant
            0 <= i <= keys.len(),
            i > 0 ==> keys@[i - 1] <= key,
        decreases keys.len() - i,
    {
        i += 1;
    }
    i
}

impl<V: Clone> BPTree<V> {
    /// The tree covers every key, its leaves are chained, and nodes are filled.
    pub closed spec fn wf(&self) -> bool {
        &&& 2 <= self.min_degree
        &&& 2 * self.min_degree <= usize::MAX
        &&& covers(self.root, None, None, self.height@)
        &&& within(self.root, self.min_degree as int)
        &&& self.root.node_type == NodeType::Internal ==> self.root.keys.len() >= 1
    }

    /// The minimum degree the tree was made with.
    pub closed spec fn degree(&self) -> nat {
        self.min_degree as nat
    }

    /// The keys in the order in which the leaf chain visits them.
    pub closed spec fn in_order_keys(&self) -> Seq<u64> {
        flat(self.root).map_values(|e: (u64, V)| e.0)
    }

    /// The root node.
    pub closed spec fn root_node(&self) -> Node<V> {
        self.root
    }

    /// The number of levels below the root.
    pub closed spec fn depth(&self) -> nat {
        self.height@
    }

    /// The tree holds finitely many keys.
    pub proof fn lemma_view_finite(&self)
        ensures
            self@.dom().finite(),
    {
        lemma_map_finite(flat(self.root));
    }

    /// The leaves, read left to right, hold the keys in strictly increasing order,
    /// each key of the map once.
    pub proof fn lemma_in_order(&self)
        requires
            self.wf(),
        ensures
            forall|i: int, j: int| 0 <= i < j < self.in_order_keys().len() ==> self.in_order_keys()[i] < self.in_order_keys()[j],
            forall|k: u64| self@.contains_key(k) <==> self.in_order_keys().contains(k),
    {
        lemma_covers(self.root, None, None, self.height@);
        let f = flat(self.root);
        let ks = self.in_order_keys();
        assert forall|k: u64| self@.contains_key(k) <==> ks.contains(k) by {
            if self@.contains_key(k) {
                let j = choose|j: int| 0 <= j < f.len() && #[trigger] f[j].0 == k;
                assert(ks[j] == k);
            }
            if ks.contains(k) {
                let j = choose|j: int| 0 <= j < ks.len() && ks[j] == k;
                assert(f[j].0 == k);
                lemma_has_key(f, j);
            }
        }
    }

    /// Fill, depth and chain: every node but the root holds between `t - 1` and
    /// `2t - 1` keys, every leaf lies at the same depth, and every leaf names as its
    /// successor the lowest key that the next leaf covers, the last one none.
    pub proof fn lemma_fill_and_chain(&self)
        requires
            self.wf(),
        ensures
            within(self.root_node(), self.degree() as int),
            covers(self.root_node(), None, None, self.depth()),
            self.root_node().node_type == NodeType::Internal ==> self.root_node().keys.len() >= 1,
    {
    }

    /// Makes an empty tree, a single leaf; a minimum degree below 2 is refused by the precondition.
    pub fn new(min_degree: usize) -> (t: Self)
        requires
            2 <= min_degree,
            2 * min_degree <= usize::MAX,
        ensures
            t.wf(),
            t@ == Map::<u64, V>::empty(),
            t.degree() == min_degree,
            t.depth() == 0,
            t.root_node().node_type == NodeType::Leaf,
            t.root_node().keys@.len() == 0,
            t.root_node().vals@.len() == 0,
            t.root_node().children@.len() == 0,
            t.root_node().next_leaf.is_none(),
    {
        let leaf_node = Node {
            node_type: NodeType::Leaf,
            keys: Vec::with_capacity(2 * min_degree - 1),
            vals: Vec::with_capacity(2 * min_degree - 1),
            children: Vec::new(),
            next_leaf: None,
        };
        let t = BPTree { root: leaf_node, min_degree, height: Ghost(0) };
        proof {
            assert(flat(t.root) =~= Seq::<(u64, V)>::empty());
            lemma_map_empty(flat(t.root));
        }
        t
    }

    /// Descends from `node` to the leaf that covers `key`.
    fn find_leaf<'a>(node: &'a Node<V>, key: u64, Ghost(lo): Ghost<Option<u64>>, Ghost(hi): Ghost<Option<u64>>, Ghost(h): Ghost<nat>) -> (r: &'a Node<V>)
        requires
            covers(*node, lo, hi, h),
            at_least(key, lo),
            less_than(key, hi),
        ensures
            r.node_type == NodeType::Leaf,
            r.keys.len() == r.vals.len(),
            keys_increase(r.keys@),
            forall|i: int| 0 <= i < r.keys.len() ==> less_than(#[trigger] r.keys@[i], r.next_leaf),
            less_than(key, r.next_leaf),
            hi.is_some() ==> r.next_leaf.is_some() && r.next_leaf.unwrap() <= hi.unwrap(),
            forall|x: u64| key <= x && less_than(x, r.next_leaf) ==> {
                &&& (#[trigger] entries_map(flat(*node)).contains_key(x) <==> entries_map(flat(*r)).contains_key(x))
                &&& (entries_map(flat(*node)).contains_key(x) ==> entries_map(flat(*node))[x] == entries_map(flat(*r))[x])
            },
        decreases h,
    {
        if node.node_type == NodeType::Leaf {
            proof {
                assert(h == 0);
            }
            return node;
        }
        let i = route(&node.keys, key);
        proof {
            lemma_route(*node, lo, hi, h, i as int);
            assert(covers(node.children@[i as int], child_lo(*node, i as int, lo), child_hi(*node, i as int, hi), (h - 1) as nat));
        }
        let r = Self::find_leaf(&node.children[i], key, Ghost(child_lo(*node, i as int, lo)), Ghost(child_hi(*node, i as int, hi)), Ghost((h - 1) as nat));
        proof {
            if i < node.keys.len() {
                assert(at_most(node.keys@[i as int], hi));
            }
        }
        r
    }

    /// A node is full when it holds `2t - 1` keys.
    fn is_full(min_degree: usize, node: &Node<V>) -> (r: bool)
        requires
            2 * min_degree <= usize::MAX,
            1 <= min_degree,
            node.node_type == NodeType::Internal ==> node.children.len() == node.keys.len() + 1,
        ensures
            r == (node.keys.len() >= 2 * min_degree - 1),
    {
        match node.node_type {
            NodeType::Leaf => node.keys.len() >= 2 * min_degree - 1,
            NodeType::Internal => node.children.len() >= 2 * min_degree,
        }
    }

    /// Splits the full child `i`: a leaf at index `t - 1`, whose right half is chained
    /// after the left one; an internal node around key `t - 1`, which moves up.
    fn split_child(
        t: usize,
        parent: &mut Node<V>,
        i: usize,
        Ghost(lo): Ghost<Option<u64>>,
        Ghost(hi): Ghost<Option<u64>>,
        Ghost(h): Ghost<nat>,
    )
        requires
            covers(*old(parent), lo, hi, h),
            h >= 1,
            within(*old(parent), t as int),
            old(parent).keys.len() < 2 * t - 1,
            i < old(parent).children.len(),
            old(parent).children@[i as int].keys.len() == 2 * t - 1,
            2 <= t,
            2 * t <= usize::MAX,
        ensures
            covers(*final(parent), lo, hi, h),
            within(*final(parent), t as int),
            flat(*final(parent)) == flat(*old(parent)),
            final(parent).keys@ == old(parent).keys@.insert(i as int, final(parent).keys@[i as int]),
            final(parent).children@[i as int].keys.len() < 2 * t - 1,
            final(parent).children@[i + 1].keys.len() < 2 * t - 1,
            final(parent).node_type == old(parent).node_type,
            final(parent).vals@ == old(parent).vals@,
            final(parent).children@ == old(parent).children@.update(i as int, final(parent).children@[i as int]).insert(
                i + 1,
                final(parent).children@[i + 1],
            ),
            old(parent).children@[i as int].node_type == NodeType::Leaf ==> leaf_split(
                old(parent).children@[i as int],
                final(parent).children@[i as int],
                final(parent).children@[i + 1],
                final(parent).keys@[i as int],
                t as int,
            ),
            old(parent).children@[i as int].node_type == NodeType::Internal ==> internal_split(
                old(parent).children@[i as int],
                final(parent).children@[i as int],
                final(parent).children@[i + 1],
                final(parent).keys@[i as int],
                t as int,
            ),
    {
        let ghost p0 = *parent;
        let ghost c0 = p0.children@[i as int];
        proof {
            assert(covers(c0, child_lo(p0, i as int, lo), child_hi(p0, i as int, hi), (h - 1) as nat));
            assert(filled(c0, t as int));
        }
        let mut child = parent.children.remove(i);
        if child.node_type == NodeType::Leaf {
            let mid = t - 1;
            let rk = child.keys.split_off(mid);
            let rv = child.vals.split_off(mid);
            let sep = rk[0];
            let right = Node { node_type: NodeType::Leaf, keys: rk, vals: rv, children: Vec::new(), next_leaf: child.next_leaf };
            child.next_leaf = Some(sep);
            proof {
                assert(h == 1);
                assert(sep == c0.keys@[mid as int]);
                lemma_cut_leaf(c0, child, right, child_lo(p0, i as int, lo), child_hi(p0, i as int, hi), mid as int);
            }
            let ghost l = child;
            let ghost r = right;
            parent.keys.insert(i, sep);
            parent.children.insert(i, child);
            parent.children.insert(i + 1, right);
            proof {
                assert(parent.children@ =~= p0.children@.update(i as int, l).insert(i + 1, r));
                if i > 0 {
                    assert(child_lo(p0, i as int, lo) == Some(p0.keys@[i - 1]));
                }
                lemma_parent_split(p0, *parent, lo, hi, h, i as int, l, r, sep);
                assert(filled(l, t as int));
                assert(filled(r, t as int));
                lemma_within_split(p0, *parent, i as int, t as int);
            }
        } else {
            let mid = t - 1;
            let rk = child.keys.split_off(mid + 1);
            let up = child.keys.pop().unwrap();
            let rc = child.children.split_off(mid + 1);
            let right = Node { node_type: NodeType::Internal, keys: rk, vals: Vec::new(), children: rc, next_leaf: None };
            proof {
                assert(child.keys@ =~= c0.keys@.subrange(0, mid as int));
                lemma_cut_internal(c0, child, right, child_lo(p0, i as int, lo), child_hi(p0, i as int, hi), (h - 1) as nat, t as int);
                assert forall|j: int| 0 <= j < child.children.len() implies filled(#[trigger] child.children@[j], t as int) by {
                    assert(child.children@[j] == c0.children@[j]);
                }
                assert forall|j: int| 0 <= j < right.children.len() implies filled(#[trigger] right.children@[j], t as int) by {
                    assert(right.children@[j] == c0.children@[j + t]);
                }
                if i > 0 {
                    assert(child_lo(p0, i as int, lo) == Some(p0.keys@[i - 1]));
                    let f = c0.keys@;
                    assert(at_least(f[0], child_lo(p0, i as int, lo))) by {
                        lemma_first_key(c0, child_lo(p0, i as int, lo), child_hi(p0, i as int, hi), (h - 1) as nat);
                    }
                    assert(f[0] <= f[mid as int]);
                }
            }
            let ghost l = child;
            let ghost r = right;
            parent.keys.insert(i, up);
            parent.children.insert(i, child);
            parent.children.insert(i + 1, right);
            proof {
                assert(parent.children@ =~= p0.children@.update(i as int, l).insert(i + 1, r));
                lemma_parent_split(p0, *parent, lo, hi, h, i as int, l, r, up);
                assert(filled(l, t as int));
                assert(filled(r, t as int));
                lemma_within_split(p0, *parent, i as int, t as int);
            }
        }
    }

    fn insert_non_full(
        t: usize,
        node: &mut Node<V>,
        key: u64,
        value: V,
        Ghost(lo): Ghost<Option<u64>>,
        Ghost(hi): Ghost<Option<u64>>,
        Ghost(h): Ghost<nat>,
    )
        requires
            covers(*old(node), lo, hi, h),
            within(*old(node), t as int),
            old(node).keys.len() < 2 * t - 1,
            at_least(key, lo),
            less_than(key, hi),
            2 <= t,
            2 * t <= usize::MAX,
        ensures
            covers(*final(node), lo, hi, h),
            within(*final(node), t as int),
            final(node).keys.len() >= old(node).keys.len(),
            entries_map(flat(*final(node))) == entries_map(flat(*old(node))).insert(key, value),
        decreases h, 1nat,
    {
        let ghost n0 = *node;
        if node.node_type == NodeType::Leaf {
            let mut i: usize = 0;
            while i < node.keys.len() && node.keys[i] < key
                invariant
                    n0 == *node,
                    0 <= i <= node.keys.len(),
                    forall|j: int| 0 <= j < i ==> node.keys@[j] < key,
                decreases node.keys.len() - i,
            {
                i += 1;
            }
            proof {
                lemma_covers(n0, lo, hi, h);
                assert(h == 0);
            }
            if i < node.keys.len() && node.keys[i] == key {
                node.vals.set(i, value);
                proof {
                    let f = flat(n0);
                    assert(f[i as int].0 == key);
                    assert(flat(*node) =~= f.update(i as int, (key, value)));
                    lemma_seq_update(f, i as int, value);
                }
            } else {
                node.keys.insert(i, key);
                node.vals.insert(i, value);
                proof {
                    let f = flat(n0);
                    assert(flat(*node) =~= f.insert(i as int, (key, value)));
                    if i > 0 {
                        assert(f[i - 1].0 == n0.keys@[i - 1]);
                    }
                    if i < f.len() {
                        assert(f[i as int].0 == n0.keys@[i as int]);
                    }
                    lemma_seq_insert(f, i as int, key, value);
                    assert forall|j: int| 0 <= j < node.keys.len() implies at_least(#[trigger] node.keys@[j], lo) && less_than(node.keys@[j], hi) by {
                        if j < i {
                            assert(node.keys@[j] == n0.keys@[j]);
                        } else if j > i {
                            assert(node.keys@[j] == n0.keys@[j - 1]);
                        }
                    }
                    assert(keys_increase(node.keys@)) by {
                        assert forall|a: int, b: int| 0 <= a < b < node.keys.len() implies node.keys@[a] < node.keys@[b] by {
                            assert(flat(*node)[a].0 == node.keys@[a] && flat(*node)[b].0 == node.keys@[b]);
                        }
                    }
                }
            }
        } else {
            proof {
                assert(h > 0);
            }
            let mut i = route(&node.keys, key);
            proof {
                assert(covers(n0.children@[i as int], child_lo(n0, i as int, lo), child_hi(n0, i as int, hi), (h - 1) as nat));
                assert(filled(n0.children@[i as int], t as int));
            }
            if Self::is_full(t, &node.children[i]) {
                Self::split_child(t, node, i, Ghost(lo), Ghost(hi), Ghost(h));
                if key >= node.keys[i] {
                    i += 1;
                }
            }
            Self::insert_into_child(t, node, i, key, value, Ghost(lo), Ghost(hi), Ghost(h));
        }
    }

    /// Inserts into child `i`, which is not full and covers `key`.
    fn insert_into_child(
        t: usize,
        node: &mut Node<V>,
        i: usize,
        key: u64,
        value: V,
        Ghost(lo): Ghost<Option<u64>>,
        Ghost(hi): Ghost<Option<u64>>,
        Ghost(h): Ghost<nat>,
    )
        requires
            covers(*old(node), lo, hi, h),
            h > 0,
            within(*old(node), t as int),
            i < old(node).children.len(),
            at_least(key, child_lo(*old(node), i as int, lo)),
            less_than(key, child_hi(*old(node), i as int, hi)),
            old(node).children@[i as int].keys.len() < 2 * t - 1,
            2 <= t,
            2 * t <= usize::MAX,
        ensures
            covers(*final(node), lo, hi, h),
            within(*final(node), t as int),
            final(node).keys@ == old(node).keys@,
            entries_map(flat(*final(node))) == entries_map(flat(*old(node))).insert(key, value),
        decreases h, 0nat,
    {
        let ghost n1 = *node;
        let ghost clo = child_lo(n1, i as int, lo);
        let ghost chi = child_hi(n1, i as int, hi);
        proof {
            assert(covers(n1.children@[i as int], clo, chi, (h - 1) as nat));
            assert(filled(n1.children@[i as int], t as int));
        }
        let mut child = node.children.remove(i);
        Self::insert_non_full(t, &mut child, key, value, Ghost(clo), Ghost(chi), Ghost((h - 1) as nat));
        node.children.insert(i, child);
        proof {
            assert(node.children@ =~= n1.children@.update(i as int, child));
            lemma_child_swap(n1, *node, lo, hi, h, i as int, child);
            assert forall|j: int| 0 <= j < node.children.len() implies filled(#[trigger] node.children@[j], t as int) by {
                if j != i {
                    assert(node.children@[j] == n1.children@[j]);
                }
            }
            assert(entries_map(flat(*node)) =~= entries_map(flat(n1)).insert(key, value));
        }
    }

    /// Inserts `key` with `value`, replacing the value of a key already present.
    pub fn insert(&mut self, key: u64, value: V)
        requires
            old(self).wf(),
        ensures
            final(self).wf(),
            final(self)@ == old(self)@.insert(key, value),
            final(self).degree() == old(self).degree(),
    {
        let t = self.min_degree;
        if Self::is_full(t, &self.root) {
            let mut new_root = Node::new_internal();
            std::mem::swap(&mut self.root, &mut new_root);
            let ghost old_root = new_root;
            self.root.children.push(new_root);
            proof {
                assert(self.root.children@[0] == old_root);
                assert(child_lo(self.root, 0, None) == None::<u64>);
                assert(child_hi(self.root, 0, None) == None::<u64>);
                assert(covers(self.root, None, None, self.height@ + 1));
                assert(self.root.children@.drop_last() =~= Seq::<Node<V>>::empty());
                assert(cat(self.root.children@.drop_last()) =~= Seq::<(u64, V)>::empty());
                assert(self.root.children@.last() == old_root);
                assert(flat(self.root) =~= flat(old_root));
                lemma_root_filled(old_root, t as int);
                assert(within(self.root, t as int));
            }
            Self::split_child(t, &mut self.root, 0, Ghost(None), Ghost(None), Ghost(self.height@ + 1));
            self.height = Ghost(self.height@ + 1);
        }
        Self::insert_non_full(t, &mut self.root, key, value, Ghost(None), Ghost(None), Ghost(self.height@));
    }

    /// Moves the last entry (leaf) or the last child (internal) of child `idx - 1`
    /// over to child `idx`, updating the routing key between them.
    fn borrow_from_left(
        parent: &mut Node<V>,
        idx: usize,
        Ghost(lo): Ghost<Option<u64>>,
        Ghost(hi): Ghost<Option<u64>>,
        Ghost(h): Ghost<nat>,
        Ghost(t): Ghost<int>,
    )
        requires
            covers(*old(parent), lo, hi, h),
            h >= 1,
            within(*old(parent), t),
            1 <= idx <= old(parent).keys.len(),
            old(parent).children@[idx - 1].keys.len() >= t,
            old(parent).children@[idx as int].keys.len() == t - 1,
            2 <= t,
        ensures
            covers(*final(parent), lo, hi, h),
            within(*final(parent), t),
            flat(*final(parent)) == flat(*old(parent)),
            final(parent).keys@ == old(parent).keys@.update(idx - 1, final(parent).keys@[idx - 1]),
            final(parent).keys@[idx - 1] <= old(parent).keys@[idx - 1],
            final(parent).children@[idx as int].keys.len() == t,
            final(parent).node_type == old(parent).node_type,
            final(parent).vals@ == old(parent).vals@,
            final(parent).children@ == old(parent).children@.update(idx - 1, final(parent).children@[idx - 1]).update(
                idx as int,
                final(parent).children@[idx as int],
            ),
            old(parent).children@[idx - 1].node_type == NodeType::Leaf ==> leaf_moved_right(
                old(parent).children@[idx - 1],
                old(parent).children@[idx as int],
                final(parent).children@[idx - 1],
                final(parent).children@[idx as int],
                final(parent).keys@[idx - 1],
            ),
            old(parent).children@[idx - 1].node_type == NodeType::Internal ==> internal_moved_right(
                old(parent).children@[idx - 1],
                old(parent).children@[idx as int],
                final(parent).children@[idx - 1],
                final(parent).children@[idx as int],
                old(parent).keys@[idx - 1],
                final(parent).keys@[idx - 1],
            ),
    {
        let ghost p0 = *parent;
        let ghost l0 = p0.children@[idx - 1];
        let ghost c0 = p0.children@[idx as int];
        proof {
            assert(covers(l0, child_lo(p0, idx - 1, lo), child_hi(p0, idx - 1, hi), (h - 1) as nat));
            assert(covers(c0, child_lo(p0, idx as int, lo), child_hi(p0, idx as int, hi), (h - 1) as nat));
            assert(filled(l0, t) && filled(c0, t));
            assert(at_most(p0.keys@[idx - 1], child_hi(p0, idx as int, hi))) by {
                if idx < p0.keys.len() {
                    assert(p0.keys@[idx - 1] <= p0.keys@[idx as int]);
                }
            }
        }
        let mut left = parent.children.remove(idx - 1);
        let mut cur = parent.children.remove(idx - 1);
        let sep = parent.keys[idx - 1];
        let k = if left.node_type == NodeType::Leaf {
            let k = left.keys.pop().unwrap();
            let v = left.vals.pop().unwrap();
            left.next_leaf = Some(k);
            cur.keys.insert(0, k);
            cur.vals.insert(0, v);
            proof {
                assert(cur.keys@ =~= seq![k] + c0.keys@);
                assert(cur.vals@ =~= seq![v] + c0.vals@);
                lemma_leaf_borrow_left(l0, c0, left, cur, child_lo(p0, idx - 1, lo), sep, child_hi(p0, idx as int, hi));
            }
            k
        } else {
            let k = left.keys.pop().unwrap();
            let x = left.children.pop().unwrap();
            cur.keys.insert(0, sep);
            cur.children.insert(0, x);
            proof {
                assert(cur.keys@ =~= seq![sep] + c0.keys@);
                assert(cur.children@ =~= seq![x] + c0.children@);
                lemma_int_borrow_left(l0, c0, left, cur, child_lo(p0, idx - 1, lo), sep, child_hi(p0, idx as int, hi), (h - 1) as nat);
            }
            k
        };
        parent.keys.set(idx - 1, k);
        let ghost l2 = left;
        let ghost c2 = cur;
        parent.children.insert(idx - 1, left);
        parent.children.insert(idx, cur);
        proof {
            assert(parent.children@ =~= p0.children@.update(idx - 1, l2).update(idx as int, c2));
            lemma_pair_swap(p0, *parent, lo, hi, h, idx - 1, l2, c2, k);
            assert(filled(l2, t)) by {
                assert forall|j: int| 0 <= j < l2.children.len() implies filled(#[trigger] l2.children@[j], t) by {
                    assert(l2.children@[j] == l0.children@[j]);
                }
            }
            assert(filled(c2, t)) by {
                assert forall|j: int| 0 <= j < c2.children.len() implies filled(#[trigger] c2.children@[j], t) by {
                    if j == 0 {
                        assert(c2.children@[j] == l0.children@[l0.children.len() - 1]);
                    } else {
                        assert(c2.children@[j] == c0.children@[j - 1]);
                    }
                }
            }
            assert forall|j: int| 0 <= j < parent.children.len() implies filled(#[trigger] parent.children@[j], t) by {
                if j != idx - 1 && j != idx {
                    assert(parent.children@[j] == p0.children@[j]);
                }
            }
        }
    }

    /// Moves the first entry (leaf) or the first child (internal) of child `idx + 1`
    /// over to child `idx`, updating the routing key between them.
    fn borrow_from_right(
        parent: &mut Node<V>,
        idx: usize,
        Ghost(lo): Ghost<Option<u64>>,
        Ghost(hi): Ghost<Option<u64>>,
        Ghost(h): Ghost<nat>,
        Ghost(t): Ghost<int>,
    )
        requires
            covers(*old(parent), lo, hi, h),
            h >= 1,
            within(*old(parent), t),
            idx < old(parent).keys.len(),
            old(parent).children@[idx + 1].keys.len() >= t,
            old(parent).children@[idx as int].keys.len() == t - 1,
            2 <= t,
        ensures
            covers(*final(parent), lo, hi, h),
            within(*final(parent), t),
            flat(*final(parent)) == flat(*old(parent)),
            final(parent).keys@ == old(parent).keys@.update(idx as int, final(parent).keys@[idx as int]),
            final(parent).keys@[idx as int] >= old(parent).keys@[idx as int],
            final(parent).children@[idx as int].keys.len() == t,
            final(parent).node_type == old(parent).node_type,
            final(parent).vals@ == old(parent).vals@,
            final(parent).children@ == old(parent).children@.update(idx as int, final(parent).children@[idx as int]).update(
                idx + 1,
                final(parent).children@[idx + 1],
            ),
            old(parent).children@[idx + 1].node_type == NodeType::Leaf ==> leaf_moved_left(
                old(parent).children@[idx as int],
                old(parent).children@[idx + 1],
                final(parent).children@[idx as int],
                final(parent).children@[idx + 1],
                final(parent).keys@[idx as int],
            ),
            old(parent).children@[idx + 1].node_type == NodeType::Internal ==> internal_moved_left(
                old(parent).children@[idx as int],
                old(parent).children@[idx + 1],
                final(parent).children@[idx as int],
                final(parent).children@[idx + 1],
                old(parent).keys@[idx as int],
                final(parent).keys@[idx as int],
            ),
    {
        let ghost p0 = *parent;
        let ghost c0 = p0.children@[idx as int];
        let ghost r0 = p0.children@[idx + 1];
        proof {
            assert(covers(c0, child_lo(p0, idx as int, lo), child_hi(p0, idx as int, hi), (h - 1) as nat));
            assert(covers(r0, child_lo(p0, idx + 1, lo), child_hi(p0, idx + 1, hi), (h - 1) as nat));
            assert(filled(r0, t) && filled(c0, t));
            assert(at_least(p0.keys@[idx as int], child_lo(p0, idx as int, lo))) by {
                if idx > 0 {
                    assert(p0.keys@[idx - 1] <= p0.keys@[idx as int]);
                }
            }
        }
        let mut cur = parent.children.remove(idx);
        let mut right = parent.children.remove(idx);
        let sep = parent.keys[idx];
        let s = if right.node_type == NodeType::Leaf {
            let k0 = right.keys.remove(0);
            let v0 = right.vals.remove(0);
            cur.keys.push(k0);
            cur.vals.push(v0);
            let s = right.keys[0];
            cur.next_leaf = Some(s);
            proof {
                lemma_leaf_borrow_right(c0, r0, cur, right, child_lo(p0, idx as int, lo), sep, child_hi(p0, idx + 1, hi));
            }
            s
        } else {
            let k0 = right.keys.remove(0);
            let y = right.children.remove(0);
            cur.keys.push(sep);
            cur.children.push(y);
            proof {
                lemma_int_borrow_right(c0, r0, cur, right, child_lo(p0, idx as int, lo), sep, child_hi(p0, idx + 1, hi), (h - 1) as nat);
            }
            k0
        };
        parent.keys.set(idx, s);
        let ghost c2 = cur;
        let ghost r2 = right;
        parent.children.insert(idx, cur);
        parent.children.insert(idx + 1, right);
        proof {
            assert(parent.children@ =~= p0.children@.update(idx as int, c2).update(idx + 1, r2));
            if r0.node_type == NodeType::Leaf {
                assert(at_least(r0.keys@[0], Some(sep)));
            } else {
                assert(at_least(r0.keys@[0], Some(sep)));
            }
            lemma_pair_swap(p0, *parent, lo, hi, h, idx as int, c2, r2, s);
            assert(filled(r2, t)) by {
                assert forall|j: int| 0 <= j < r2.children.len() implies filled(#[trigger] r2.children@[j], t) by {
                    assert(r2.children@[j] == r0.children@[j + 1]);
                }
            }
            assert(filled(c2, t)) by {
                assert forall|j: int| 0 <= j < c2.children.len() implies filled(#[trigger] c2.children@[j], t) by {
                    if j < c0.children.len() {
                        assert(c2.children@[j] == c0.children@[j]);
                    } else {
                        assert(c2.children@[j] == r0.children@[0]);
                    }
                }
            }
            assert forall|j: int| 0 <= j < parent.children.len() implies filled(#[trigger] parent.children@[j], t) by {
                if j != idx && j != idx + 1 {
                    assert(parent.children@[j] == p0.children@[j]);
                }
            }
        }
    }

    /// Joins child `idx + 1` into child `idx`, dropping the routing key between them;
    /// two leaves keep the chain by taking over the successor of the right one.
    fn merge_child(
        parent: &mut Node<V>,
        idx: usize,
        Ghost(lo): Ghost<Option<u64>>,
        Ghost(hi): Ghost<Option<u64>>,
        Ghost(h): Ghost<nat>,
        Ghost(t): Ghost<int>,
    )
        requires
            covers(*old(parent), lo, hi, h),
            h >= 1,
            within(*old(parent), t),
            idx < old(parent).keys.len(),
            old(parent).children@[idx as int].keys.len() + old(parent).children@[idx + 1].keys.len() + 1 <= 2 * t - 1,
            2 <= t,
        ensures
            covers(*final(parent), lo, hi, h),
            within(*final(parent), t),
            flat(*final(parent)) == flat(*old(parent)),
            final(parent).keys@ == old(parent).keys@.remove(idx as int),
            final(parent).children@[idx as int].keys.len() >= t,
            final(parent).node_type == old(parent).node_type,
            final(parent).vals@ == old(parent).vals@,
            final(parent).children@ == old(parent).children@.remove(idx + 1).update(idx as int, final(parent).children@[idx as int]),
            joined(
                old(parent).children@[idx as int],
                old(parent).children@[idx + 1],
                final(parent).children@[idx as int],
                old(parent).keys@[idx as int],
            ),
    {
        let ghost p0 = *parent;
        let ghost c0 = p0.children@[idx as int];
        let ghost r0 = p0.children@[idx + 1];
        proof {
            assert(covers(c0, child_lo(p0, idx as int, lo), child_hi(p0, idx as int, hi), (h - 1) as nat));
            assert(covers(r0, child_lo(p0, idx + 1, lo), child_hi(p0, idx + 1, hi), (h - 1) as nat));
            assert(filled(r0, t) && filled(c0, t));
            assert(at_least(p0.keys@[idx as int], child_lo(p0, idx as int, lo))) by {
                if idx > 0 {
                    assert(p0.keys@[idx - 1] <= p0.keys@[idx as int]);
                }
            }
            assert(at_most(p0.keys@[idx as int], child_hi(p0, idx + 1, hi))) by {
                if idx + 1 < p0.keys.len() {
                    assert(p0.keys@[idx as int] <= p0.keys@[idx + 1]);
                }
            }
        }
        let sep = parent.keys.remove(idx);
        let right = parent.children.remove(idx + 1);
        let mut left = parent.children.remove(idx);
        let Node { node_type: _, keys: mut rk, vals: mut rv, children: mut rc, next_leaf: rn } = right;
        if left.node_type == NodeType::Leaf {
            left.keys.append(&mut rk);
            left.vals.append(&mut rv);
            left.next_leaf = rn;
            proof {
                assert(rc@.len() == 0);
                lemma_leaf_join(c0, r0, left, child_lo(p0, idx as int, lo), sep, child_hi(p0, idx + 1, hi));
            }
        } else {
            left.keys.push(sep);
            left.keys.append(&mut rk);
            left.children.append(&mut rc);
            proof {
                lemma_int_join(c0, r0, left, child_lo(p0, idx as int, lo), sep, child_hi(p0, idx + 1, hi), (h - 1) as nat);
            }
        }
        let ghost j = left;
        parent.children.insert(idx, left);
        proof {
            assert(parent.children@ =~= p0.children@.remove(idx + 1).update(idx as int, j));
            lemma_pair_join(p0, *parent, lo, hi, h, idx as int, j);
            assert(filled(j, t)) by {
                assert forall|x: int| 0 <= x < j.children.len() implies filled(#[trigger] j.children@[x], t) by {
                    if x < c0.children.len() {
                        assert(j.children@[x] == c0.children@[x]);
                    } else {
                        assert(j.children@[x] == r0.children@[x - c0.children.len()]);
                    }
                }
            }
            assert forall|x: int| 0 <= x < parent.children.len() implies filled(#[trigger] parent.children@[x], t) by {
                if x < idx {
                    assert(parent.children@[x] == p0.children@[x]);
                } else if x > idx {
                    assert(parent.children@[x] == p0.children@[x + 1]);
                }
            }
        }
    }

    /// Makes sure child `idx`, which covers `key`, has at least `t` keys; returns
    /// the index of the child that covers `key` afterwards.
    fn fix_child_deficiency(
        node: &mut Node<V>,
        idx: usize,
        min_degree: usize,
        Ghost(key): Ghost<u64>,
        Ghost(lo): Ghost<Option<u64>>,
        Ghost(hi): Ghost<Option<u64>>,
        Ghost(h): Ghost<nat>,
    ) -> (r: usize)
        requires
            covers(*old(node), lo, hi, h),
            h >= 1,
            within(*old(node), min_degree as int),
            1 <= old(node).keys.len(),
            idx <= old(node).keys.len(),
            old(node).children@[idx as int].keys.len() < min_degree,
            at_least(key, child_lo(*old(node), idx as int, lo)),
            less_than(key, child_hi(*old(node), idx as int, hi)),
            2 <= min_degree,
            2 * min_degree <= usize::MAX,
        ensures
            covers(*final(node), lo, hi, h),
            within(*final(node), min_degree as int),
            flat(*final(node)) == flat(*old(node)),
            r < final(node).children.len(),
            final(node).keys.len() + 1 >= old(node).keys.len(),
            final(node).children@[r as int].keys.len() >= min_degree,
            at_least(key, child_lo(*final(node), r as int, lo)),
            less_than(key, child_hi(*final(node), r as int, hi)),
    {
        let ghost t = min_degree as int;
        let ghost p0 = *node;
        proof {
            assert(filled(p0.children@[idx as int], t));
            if idx > 0 {
                assert(filled(p0.children@[idx - 1], t));
            }
            if idx < p0.keys.len() {
                assert(filled(p0.children@[idx + 1], t));
            }
        }
        if idx > 0 && node.children[idx - 1].keys.len() >= min_degree {
            Self::borrow_from_left(node, idx, Ghost(lo), Ghost(hi), Ghost(h), Ghost(t));
            idx
        } else if idx < node.keys.len() && node.children[idx + 1].keys.len() >= min_degree {
            Self::borrow_from_right(node, idx, Ghost(lo), Ghost(hi), Ghost(h), Ghost(t));
            idx
        } else if idx < node.keys.len() {
            Self::merge_child(node, idx, Ghost(lo), Ghost(hi), Ghost(h), Ghost(t));
            proof {
                if idx + 1 < p0.keys.len() {
                    assert(p0.keys@[idx as int] <= p0.keys@[idx + 1]);
                    assert(node.keys@[idx as int] == p0.keys@[idx + 1]);
                }
                if idx > 0 {
                    assert(node.keys@[idx - 1] == p0.keys@[idx - 1]);
                }
            }
            idx
        } else {
            Self::merge_child(node, idx - 1, Ghost(lo), Ghost(hi), Ghost(h), Ghost(t));
            proof {
                if idx >= 2 {
                    assert(p0.keys@[idx - 2] <= p0.keys@[idx - 1]);
                    assert(node.keys@[idx - 2] == p0.keys@[idx - 2]);
                }
            }
            idx - 1
        }
    }

    fn delete_recur(
        node: &mut Node<V>,
        key: &u64,
        min_degree: usize,
        Ghost(lo): Ghost<Option<u64>>,
        Ghost(hi): Ghost<Option<u64>>,
        Ghost(h): Ghost<nat>,
    )
        requires
            covers(*old(node), lo, hi, h),
            within(*old(node), min_degree as int),
            old(node).node_type == NodeType::Internal ==> old(node).keys.len() >= 1,
            at_least(*key, lo),
            less_than(*key, hi),
            2 <= min_degree,
            2 * min_degree <= usize::MAX,
        ensures
            covers(*final(node), lo, hi, h),
            within(*final(node), min_degree as int),
            final(node).keys.len() + 1 >= old(node).keys.len(),
            entries_map(flat(*final(node))) == entries_map(flat(*old(node))).remove(*key),
        decreases h, 1nat,
    {
        let ghost n0 = *node;
        if node.node_type == NodeType::Leaf {
            let mut i: usize = 0;
            while i < node.keys.len() && node.keys[i] < *key
                invariant
                    n0 == *node,
                    0 <= i <= node.keys.len(),
                    forall|j: int| 0 <= j < i ==> node.keys@[j] < *key,
                decreases node.keys.len() - i,
            {
                i += 1;
            }
            proof {
                assert(h == 0);
                lemma_covers(n0, lo, hi, h);
            }
            let ghost f = flat(n0);
            if i < node.keys.len() && node.keys[i] == *key {
                node.keys.remove(i);
                node.vals.remove(i);
                proof {
                    assert(flat(*node) =~= f.remove(i as int));
                    assert(f[i as int].0 == *key);
                    lemma_seq_remove(f, i as int);
                    assert forall|j: int| 0 <= j < node.keys.len() implies at_least(#[trigger] node.keys@[j], lo) && less_than(node.keys@[j], hi) by {
                        if j < i {
                            assert(node.keys@[j] == n0.keys@[j]);
                        } else {
                            assert(node.keys@[j] == n0.keys@[j + 1]);
                        }
                    }
                    assert(keys_increase(node.keys@)) by {
                        assert forall|a: int, b: int| 0 <= a < b < node.keys.len() implies node.keys@[a] < node.keys@[b] by {
                            let aa = if a < i { a } else { a + 1 };
                            let bb = if b < i { b } else { b + 1 };
                            assert(node.keys@[a] == n0.keys@[aa] && node.keys@[b] == n0.keys@[bb]);
                        }
                    }
                }
            } else {
                proof {
                    assert(!has_key(f, *key)) by {
                        if has_key(f, *key) {
                            let j = choose|j: int| 0 <= j < f.len() && #[trigger] f[j].0 == *key;
                            assert(f[j].0 == n0.keys@[j]);
                            if j >= i {
                                assert(n0.keys@[i as int] <= n0.keys@[j]);
                            }
                        }
                    }
                    assert(entries_map(f).remove(*key) =~= entries_map(f));
                }
            }
        } else {
            proof {
                assert(h > 0);
            }
            let mut i = route(&node.keys, *key);
            proof {
                assert(filled(n0.children@[i as int], min_degree as int));
                if i < n0.keys.len() {
                    assert(at_most(n0.keys@[i as int], hi));
                }
            }
            if node.children[i].keys.len() < min_degree {
                i = Self::fix_child_deficiency(node, i, min_degree, Ghost(*key), Ghost(lo), Ghost(hi), Ghost(h));
            }
            proof {
                assert(filled(node.children@[i as int], min_degree as int));
            }
            Self::delete_in_child(node, i, key, min_degree, Ghost(lo), Ghost(hi), Ghost(h));
        }
    }

    /// Deletes `key` from child `i`, which covers it and has at least `t` keys.
    fn delete_in_child(
        node: &mut Node<V>,
        i: usize,
        key: &u64,
        min_degree: usize,
        Ghost(lo): Ghost<Option<u64>>,
        Ghost(hi): Ghost<Option<u64>>,
        Ghost(h): Ghost<nat>,
    )
        requires
            covers(*old(node), lo, hi, h),
            h > 0,
            within(*old(node), min_degree as int),
            i < old(node).children.len(),
            at_least(*key, child_lo(*old(node), i as int, lo)),
            less_than(*key, child_hi(*old(node), i as int, hi)),
            old(node).children@[i as int].keys.len() >= min_degree,
            2 <= min_degree,
            2 * min_degree <= usize::MAX,
        ensures
            covers(*final(node), lo, hi, h),
            within(*final(node), min_degree as int),
            final(node).keys@ == old(node).keys@,
            entries_map(flat(*final(node))) == entries_map(flat(*old(node))).remove(*key),
        decreases h, 0nat,
    {
        let ghost n1 = *node;
        let ghost clo = child_lo(n1, i as int, lo);
        let ghost chi = child_hi(n1, i as int, hi);
        proof {
            assert(covers(n1.children@[i as int], clo, chi, (h - 1) as nat));
            assert(filled(n1.children@[i as int], min_degree as int));
        }
        let mut child = node.children.remove(i);
        Self::delete_recur(&mut child, key, min_degree, Ghost(clo), Ghost(chi), Ghost((h - 1) as nat));
        node.children.insert(i, child);
        proof {
            assert(node.children@ =~= n1.children@.update(i as int, child));
            lemma_child_swap(n1, *node, lo, hi, h, i as int, child);
            assert forall|j: int| 0 <= j < node.children.len() implies filled(#[trigger] node.children@[j], min_degree as int) by {
                if j != i {
                    assert(node.children@[j] == n1.children@[j]);
                }
            }
            assert(entries_map(flat(*node)) =~= entries_map(flat(n1)).remove(*key));
        }
    }

    /// Removes `key`; an absent key leaves the map as it was.
    pub fn delete(&mut self, key: &u64)
        requires
            old(self).wf(),
        ensures
            final(self).wf(),
            final(self)@ == old(self)@.remove(*key),
            !old(self)@.contains_key(*key) ==> final(self)@ == old(self)@,
            final(self).degree() == old(self).degree(),
            final(self).root_node().node_type == NodeType::Internal ==> final(self).root_node().keys.len() >= 1,
    {
        Self::delete_recur(&mut self.root, key, self.min_degree, Ghost(None), Ghost(None), Ghost(self.height@));
        self.collapse_root();
        proof {
            if !old(self)@.contains_key(*key) {
                assert(old(self)@.remove(*key) =~= old(self)@);
            }
        }
    }

    /// An internal root left without keys is replaced by its only child.
    fn collapse_root(&mut self)
        requires
            2 <= old(self).min_degree,
            2 * old(self).min_degree <= usize::MAX,
            covers(old(self).root, None, None, old(self).height@),
            within(old(self).root, old(self).min_degree as int),
        ensures
            final(self).wf(),
            final(self)@ == old(self)@,
            final(self).degree() == old(self).degree(),
    {
        if self.root.node_type == NodeType::Internal && self.root.keys.len() == 0 {
            let ghost r0 = self.root;
            let child = self.root.children.remove(0);
            proof {
                assert(child == r0.children@[0]);
                assert(child_lo(r0, 0, None) == None::<u64>);
                assert(child_hi(r0, 0, None) == None::<u64>);
                assert(covers(child, None, None, (self.height@ - 1) as nat));
                assert(filled(child, self.min_degree as int));
                assert(r0.children@.drop_last() =~= Seq::<Node<V>>::empty());
                assert(cat(r0.children@.drop_last()) =~= Seq::<(u64, V)>::empty());
                assert(flat(r0) =~= flat(child));
            }
            self.root = child;
            self.height = Ghost((self.height@ - 1) as nat);
            proof {
                assert(self.root.node_type == NodeType::Internal ==> self.root.keys.len() >= 1);
            }
        }
    }

    /// Inserts every pair, sorted by key first; of two pairs with one key the later wins.
    pub fn bulk_insert(&mut self, pairs: Vec<(u64, V)>)
        requires
            old(self).wf(),
        ensures
            final(self).wf(),
            final(self)@ == insert_all(old(self)@, pairs@),
            final(self).degree() == old(self).degree(),
    {
        let ghost m0 = self@;
        let mut pairs = pairs;
        let ghost given = pairs@;
        sort_by_key_stable(&mut pairs);
        let ghost ordered = pairs@;
        let ghost n = ordered.len();
        let mut stack: Vec<(u64, V)> = Vec::new();
        while pairs.len() > 0
            invariant
                pairs@ == ordered.subrange(0, pairs.len() as int),
                stack.len() == n - pairs.len(),
                n == ordered.len(),
                forall|j: int| 0 <= j < stack.len() ==> #[trigger] stack@[j] == ordered[n - 1 - j],
            decreases pairs.len(),
        {
            let e = pairs.pop().unwrap();
            stack.push(e);
            proof {
                assert(pairs@ =~= ordered.subrange(0, pairs.len() as int));
            }
        }
        proof {
            assert(ordered.subrange(0, 0) =~= Seq::<(u64, V)>::empty());
        }
        while stack.len() > 0
            invariant
                self.wf(),
                self.degree() == old(self).degree(),
                n == ordered.len(),
                stack.len() <= n,
                forall|j: int| 0 <= j < stack.len() ==> #[trigger] stack@[j] == ordered[n - 1 - j],
                self@ == insert_all(m0, ordered.subrange(0, n - stack.len())),
            decreases stack.len(),
        {
            let (key, value) = stack.pop().unwrap();
            let ghost done = ordered.subrange(0, n - stack.len());
            proof {
                assert(done.drop_last() =~= ordered.subrange(0, n - stack.len() - 1));
                assert(done.last() == (key, value));
            }
            self.insert(key, value);
        }
        proof {
            assert(ordered.subrange(0, n as int) =~= ordered);
            lemma_insert_all_same(m0, ordered, given);
        }
    }

    /// Deletes every key of `keys`, then shortens the tree while its root is an
    /// internal node with a single child.
    pub fn bulk_delete(&mut self, keys: &[u64])
        requires
            old(self).wf(),
        ensures
            final(self).wf(),
            final(self)@ == old(self)@.remove_keys(keys@.to_set()),
            final(self).degree() == old(self).degree(),
            final(self).root_node().node_type == NodeType::Internal ==> final(self).root_node().keys.len() >= 1,
    {
        let ghost m0 = self@;
        let mut i: usize = 0;
        proof {
            assert(m0.remove_keys(keys@.subrange(0, 0).to_set()) =~= m0);
        }
        while i < keys.len()
            invariant
                self.wf(),
                self.degree() == old(self).degree(),
                0 <= i <= keys.len(),
                self@ == m0.remove_keys(keys@.subrange(0, i as int).to_set()),
            decreases keys.len() - i,
        {
            self.delete(&keys[i]);
            while self.root.node_type == NodeType::Internal && self.root.keys.len() == 0 && self.root.children.len() == 1
                invariant
                    self.wf(),
                    self.degree() == old(self).degree(),
                    self@ == m0.remove_keys(keys@.subrange(0, i as int).to_set()).remove(keys@[i as int]),
                decreases self.height@,
            {
                self.collapse_root();
            }
            proof {
                lemma_prefix_set(keys@, i as int);
                assert(self@ =~= m0.remove_keys(keys@.subrange(0, i + 1).to_set()));
            }
            i += 1;
        }
        proof {
            assert(keys@.subrange(0, keys.len() as int) =~= keys@);
        }
    }

    /// A rough estimate, in bytes, of the memory the tree takes: node structures
    /// plus the reserved room of their key and value vectors. Diagnostic only; it
    /// counts at least every node structure and every key and value held
    /// (`tree_bytes`), unless the sum reaches `usize::MAX`.
    pub fn approximate_memory_usage(&self) -> (r: usize)
        ensures
            r as int >= capped(tree_bytes(self.root_node()) as int),
    {
        node_memory(&self.root)
    }

    /// Clones of the values of the keys in `[start, end]`, in ascending key order:
    /// one descent to the leaf of `start`, then along the leaf chain.
    #[verifier::rlimit(50)]
    pub fn range_query(&self, start: &u64, end: &u64) -> (r: Vec<V>)
        requires
            self.wf(),
        ensures
            r@.len() == values_in_range(self@, *start as int, *end as int).len(),
            forall|i: int| 0 <= i < r@.len() ==> cloned(#[trigger] values_in_range(self@, *start as int, *end as int)[i], r@[i]),
    {
        let ghost m = self@;
        let ghost lo = *start as int;
        let ghost hi = *end as int;
        let mut result: Vec<V> = Vec::new();
        let ghost mut model: Seq<V> = Seq::empty();
        let mut cur: u64 = *start;
        proof {
            crate::range_model::lemma_range_none(m, lo, if cur - 1 < hi { cur - 1 } else { hi });
        }
        loop
            invariant
                self.wf(),
                m == self@,
                lo == *start as int,
                hi == *end as int,
                lo <= cur,
                model == values_in_range(m, lo, if cur - 1 < hi { cur - 1 } else { hi }),
                result@.len() == model.len(),
                forall|j: int| 0 <= j < model.len() ==> cloned(#[trigger] model[j], result@[j]),
            decreases u64::MAX - cur,
        {
            let leaf = Self::find_leaf(&self.root, cur, Ghost(None), Ghost(None), Ghost(self.height@));
            let ghost f = flat(*leaf);
            let ghost base = model;
            let ghost up: int = match leaf.next_leaf {
                Some(nx) => nx - 1,
                None => u64::MAX as int,
            };
            proof {
                assert forall|p: int, q: int| 0 <= p < q < f.len() implies #[trigger] f[p].0 < #[trigger] f[q].0 by {
                    assert(f[p].0 == leaf.keys@[p] && f[q].0 == leaf.keys@[q]);
                }
                assert(leaf_ok(*leaf));
                assert(f.subrange(0, 0) =~= Seq::<(u64, V)>::empty());
                assert(range_filter(f.subrange(0, 0), cur as int, hi) =~= Seq::<V>::empty());
                assert(model =~= base + range_filter(f.subrange(0, 0), cur as int, hi));
                assert forall|x: u64| cur <= x && x <= up implies less_than(x, leaf.next_leaf) by {}
                assert forall|x: u64| cur <= x && x <= up implies {
                    &&& (#[trigger] m.contains_key(x) <==> entries_map(flat(*leaf)).contains_key(x))
                    &&& (m.contains_key(x) ==> m[x] == entries_map(flat(*leaf))[x])
                } by {
                    assert(less_than(x, leaf.next_leaf));
                }
                assert forall|j: int| 0 <= j < leaf.keys.len() implies leaf.keys@[j] <= up by {
                    assert(less_than(leaf.keys@[j], leaf.next_leaf));
                }
            }
            let mut i: usize = 0;
            while i < leaf.keys.len()
                invariant
                    0 <= i <= leaf.keys.len(),
                    leaf_ok(*leaf),
                    f == flat(*leaf),
                    hi == *end as int,
                    lo == *start as int,
                    m == self@,
                    lo <= cur,
                    cur - 1 <= up,
                    up == match leaf.next_leaf {
                        Some(nx) => nx - 1,
                        None => u64::MAX as int,
                    },
                    model == base + range_filter(f.subrange(0, i as int), cur as int, hi),
                    base == values_in_range(m, lo, if cur - 1 < hi { cur - 1 } else { hi }),
                    forall|x: u64| cur <= x && x <= up ==> {
                        &&& (#[trigger] m.contains_key(x) <==> entries_map(flat(*leaf)).contains_key(x))
                        &&& (m.contains_key(x) ==> m[x] == entries_map(flat(*leaf))[x])
                    },
                    forall|j: int| 0 <= j < leaf.keys.len() ==> leaf.keys@[j] <= up,
                    forall|j: int| 0 <= j < i ==> leaf.keys@[j] <= *end,
                    model == base + range_filter(f.subrange(0, i as int), cur as int, hi),
                    result@.len() == model.len(),
                    forall|j: int| 0 <= j < model.len() ==> cloned(#[trigger] model[j], result@[j]),
                decreases leaf.keys.len() - i,
            {
                let k = leaf.keys[i];
                if k > *end {
                    proof {
                        assert(f[i as int].0 == k);
                        let rest = f.subrange(i as int, f.len() as int);
                        assert(f =~= f.subrange(0, i as int) + rest);
                        assert forall|j: int| 0 <= j < rest.len() implies !(cur <= #[trigger] rest[j].0 <= hi) by {
                            assert(rest[j] == f[i + j]);
                            if j > 0 {
                                assert(f[i as int].0 < f[i + j].0);
                            }
                        }
                        lemma_range_filter_none(rest, cur as int, hi);
                        lemma_range_filter_concat(f.subrange(0, i as int), rest, cur as int, hi);
                        assert(less_than(k, leaf.next_leaf));
                        lemma_leaf_step(m, *leaf, lo, cur, hi, up);
                        assert(model =~= values_in_range(m, lo, hi));
                    }
                    return result;
                }
                if k >= cur {
                    let v = leaf.vals[i].clone();
                    result.push(v);
                    proof {
                        model = model.push(leaf.vals@[i as int]);
                    }
                }
                proof {
                    let e = f[i as int];
                    assert(e == (leaf.keys@[i as int], leaf.vals@[i as int]));
                    assert(f.subrange(0, i + 1) =~= f.subrange(0, i as int) + seq![e]);
                    lemma_range_filter_concat(f.subrange(0, i as int), seq![e], cur as int, hi);
                    lemma_range_filter_single(e.0, e.1, cur as int, hi);
                    assert(model =~= base + range_filter(f.subrange(0, i + 1), cur as int, hi));
                }
                i += 1;
            }
            proof {
                assert(f.subrange(0, i as int) =~= f);
                lemma_leaf_step(m, *leaf, lo, cur, hi, up);
            }
            match leaf.next_leaf {
                Some(nk) => {
                    cur = nk;
                },
                None => {
                    return result;
                },
            }
        }
    }

    /// Looks `key` up and returns a clone of its value.
    pub fn get(&self, key: &u64) -> (r: Option<V>)
        requires
            self.wf(),
        ensures
            r.is_some() == self@.contains_key(*key),
            r.is_some() ==> cloned(self@[*key], r.unwrap()),
    {
        let leaf = Self::find_leaf(&self.root, *key, Ghost(None), Ghost(None), Ghost(self.height@));
        let mut i: usize = 0;
        while i < leaf.keys.len() && leaf.keys[i] < *key
            invariant
                0 <= i <= leaf.keys.len(),
                forall|j: int| 0 <= j < i ==> leaf.keys@[j] < *key,
            decreases leaf.keys.len() - i,
        {
            i += 1;
        }
        let ghost f = flat(*leaf);
        proof {
            assert forall|p: int, q: int| 0 <= p < q < f.len() implies #[trigger] f[p].0 < #[trigger] f[q].0 by {
                assert(f[p].0 == leaf.keys@[p] && f[q].0 == leaf.keys@[q]);
            }
        }
        if i < leaf.keys.len() && leaf.keys[i] == *key {
            proof {
                assert(f[i as int] == (leaf.keys@[i as int], leaf.vals@[i as int]));
                lemma_entry_found(f, i as int);
            }
            Some(leaf.vals[i].clone())
        } else {
            proof {
                if has_key(f, *key) {
                    let j = choose|j: int| 0 <= j < f.len() && #[trigger] f[j].0 == *key;
                    assert(f[j].0 == leaf.keys@[j]);
                    if j >= i {
                        assert(leaf.keys@[i as int] <= leaf.keys@[j]);
                    }
                }
            }
            None
        }
    }
}

} // verus!
