//! A classic multiway B-tree of minimum degree `t`: every node but the root
//! holds between `t - 1` and `2t - 1` keys, each paired with its value.
use vstd::prelude::*;
use crate::range_model::values_in_range;
use crate::entries::{sorted, precedes, entries_map, range_filter, lemma_sorted_concat, lemma_entry_found,
    lemma_map_concat, lemma_map_empty, lemma_has_key, lemma_range_filter_concat,
    lemma_range_filter_none, lemma_range_filter_map, lemma_range_filter_single, lemma_seq_insert, lemma_seq_update, lemma_seq_remove, lemma_map_finite, lemma_swap_pred, lemma_swap_succ, has_key};

verus! {

broadcast use vstd::std_specs::vec::group_vec_axioms, vstd::seq::group_seq_axioms;

pub struct BTreeNode<V> {
    pub keys: Vec<u64>,
    pub vals: Vec<V>,
    pub children: Vec<BTreeNode<V>>,
    pub leaf: bool,
}

/// The entries of a leaf.
pub open spec fn pairs<V>(k: Seq<u64>, v: Seq<V>) -> Seq<(u64, V)> {
    Seq::new(k.len(), |i: int| (k[i], v[i]))
}

/// In-order entries of the children `c` each followed by the key and value of the same index.
pub open spec fn gather<V>(k: Seq<u64>, v: Seq<V>, c: Seq<BTreeNode<V>>) -> Seq<(u64, V)>
    decreases c,
{
    if c.len() == 0 {
        Seq::empty()
    } else {
        gather(k.drop_last(), v.drop_last(), c.drop_last()) + flat(c.last()) + seq![(k.last(), v.last())]
    }
}

/// In-order entries of an internal node with keys `k`, values `v` and children `c`.
pub open spec fn inner<V>(k: Seq<u64>, v: Seq<V>, c: Seq<BTreeNode<V>>) -> Seq<(u64, V)>
    decreases c,
{
    if c.len() == 0 {
        Seq::empty()
    } else {
        gather(k, v, c.drop_last()) + flat(c.last())
    }
}

/// In-order entries of a subtree.
pub open spec fn flat<V>(n: BTreeNode<V>) -> Seq<(u64, V)>
    decreases n,
{
    if n.leaf {
        pairs(n.keys@, n.vals@)
    } else {
        inner(n.keys@, n.vals@, n.children@)
    }
}

/// One value per key; an internal node has one child more than keys.
pub open spec fn local<V>(n: BTreeNode<V>) -> bool {
    &&& n.keys.len() == n.vals.len()
    &&& if n.leaf {
        n.children.len() == 0
    } else {
        n.children.len() == n.keys.len() + 1
    }
}

/// Every node is locally well formed and every leaf lies `h` levels below `n`.
pub open spec fn shaped<V>(n: BTreeNode<V>, h: nat) -> bool
    decreases n,
{
    &&& local(n)
    &&& n.leaf == (h == 0)
    &&& !n.leaf ==> forall|i: int| 0 <= i < n.children.len() ==> shaped(#[trigger] n.children@[i], (h - 1) as nat)
}

/// `l` and `r` are the full node `c` cut around its key `t - 1`: `l` keeps the
/// keys and values before it and the first `t` children, `r` those after it.
pub open spec fn node_split<V>(c: BTreeNode<V>, l: BTreeNode<V>, r: BTreeNode<V>, t: int) -> bool {
    &&& l.leaf == c.leaf
    &&& r.leaf == c.leaf
    &&& l.keys@ == c.keys@.subrange(0, t - 1)
    &&& l.vals@ == c.vals@.subrange(0, t - 1)
    &&& r.keys@ == c.keys@.subrange(t, c.keys.len() as int)
    &&& r.vals@ == c.vals@.subrange(t, c.vals.len() as int)
    &&& if c.leaf {
        l.children@.len() == 0 && r.children@.len() == 0
    } else {
        l.children@ == c.children@.subrange(0, t) && r.children@ == c.children@.subrange(t, c.children.len() as int)
    }
}

/// Every node holds between `t - 1` and `2t - 1` keys.
pub open spec fn filled<V>(n: BTreeNode<V>, t: int) -> bool
    decreases n,
{
    &&& t - 1 <= n.keys.len() <= 2 * t - 1
    &&& !n.leaf ==> forall|i: int| 0 <= i < n.children.len() ==> filled(#[trigger] n.children@[i], t)
}

/// The bounds that a root meets: at most `2t - 1` keys, every other node filled.
pub open spec fn within<V>(n: BTreeNode<V>, t: int) -> bool {
    &&& n.keys.len() <= 2 * t - 1
    &&& !n.leaf ==> forall|i: int| 0 <= i < n.children.len() ==> filled(#[trigger] n.children@[i], t)
}

/// Gathering two runs of children, one after the other.
pub proof fn lemma_gather_append<V>(
    k1: Seq<u64>, v1: Seq<V>, c1: Seq<BTreeNode<V>>,
    k2: Seq<u64>, v2: Seq<V>, c2: Seq<BTreeNode<V>>,
)
    requires
        k1.len() == v1.len() == c1.len(),
        k2.len() == v2.len() == c2.len(),
    ensures
        gather(k1 + k2, v1 + v2, c1 + c2) == gather(k1, v1, c1) + gather(k2, v2, c2),
    decreases c2.len(),
{
    if c2.len() == 0 {
        assert(k1 + k2 =~= k1);
        assert(v1 + v2 =~= v1);
        assert(c1 + c2 =~= c1);
        assert(gather(k1, v1, c1) + gather(k2, v2, c2) =~= gather(k1, v1, c1));
    } else {
        lemma_gather_append(k1, v1, c1, k2.drop_last(), v2.drop_last(), c2.drop_last());
        assert((k1 + k2).drop_last() =~= k1 + k2.drop_last());
        assert((v1 + v2).drop_last() =~= v1 + v2.drop_last());
        assert((c1 + c2).drop_last() =~= c1 + c2.drop_last());
        assert(gather(k1 + k2, v1 + v2, c1 + c2) =~= gather(k1, v1, c1) + gather(k2, v2, c2));
    }
}

/// Cutting an internal node's fields at child `i`.
pub proof fn lemma_inner_split<V>(k: Seq<u64>, v: Seq<V>, c: Seq<BTreeNode<V>>, i: int)
    requires
        k.len() == v.len(),
        c.len() == k.len() + 1,
        0 <= i <= k.len(),
    ensures
        inner(k, v, c) == gather(k.subrange(0, i), v.subrange(0, i), c.subrange(0, i)) + inner(
            k.subrange(i, k.len() as int),
            v.subrange(i, v.len() as int),
            c.subrange(i, c.len() as int),
        ),
{
    let m = k.len() as int;
    lemma_gather_append(
        k.subrange(0, i), v.subrange(0, i), c.subrange(0, i),
        k.subrange(i, m), v.subrange(i, m), c.subrange(i, m),
    );
    assert(k.subrange(0, i) + k.subrange(i, m) =~= k);
    assert(v.subrange(0, i) + v.subrange(i, m) =~= v);
    assert(c.subrange(0, i) + c.subrange(i, m) =~= c.drop_last());
    assert(c.subrange(i, c.len() as int).drop_last() =~= c.subrange(i, m));
    assert(c.subrange(i, c.len() as int).last() == c.last());
}

/// The first child and entry of an internal node.
pub proof fn lemma_inner_head<V>(k: Seq<u64>, v: Seq<V>, c: Seq<BTreeNode<V>>)
    requires
        k.len() == v.len(),
        c.len() == k.len() + 1,
        k.len() >= 1,
    ensures
        inner(k, v, c) == flat(c[0]) + seq![(k[0], v[0])] + inner(
            k.subrange(1, k.len() as int),
            v.subrange(1, v.len() as int),
            c.subrange(1, c.len() as int),
        ),
{
    lemma_inner_split(k, v, c, 1);
    let k1 = k.subrange(0, 1);
    let v1 = v.subrange(0, 1);
    let c1 = c.subrange(0, 1);
    assert(k1.drop_last() =~= Seq::<u64>::empty());
    assert(v1.drop_last() =~= Seq::<V>::empty());
    assert(c1.drop_last() =~= Seq::<BTreeNode<V>>::empty());
    assert(gather(k1.drop_last(), v1.drop_last(), c1.drop_last()) =~= Seq::<(u64, V)>::empty());
    assert(c1.last() == c[0] && k1.last() == k[0] && v1.last() == v[0]);
    assert(gather(k1, v1, c1) =~= flat(c[0]) + seq![(k[0], v[0])]);
}

/// A node with a single child and no key holds the child's entries.
pub proof fn lemma_inner_single<V>(k: Seq<u64>, v: Seq<V>, c: Seq<BTreeNode<V>>)
    requires
        k.len() == 0,
        c.len() == 1,
    ensures
        inner(k, v, c) == flat(c[0]),
{
    assert(c.drop_last() =~= Seq::<BTreeNode<V>>::empty());
    assert(inner(k, v, c) =~= flat(c[0]));
}


/// Entries of `n` before child `i` (or before key `i` in a leaf), up to key `i - 1`.
pub open spec fn below<V>(n: BTreeNode<V>, i: int) -> Seq<(u64, V)> {
    if n.leaf {
        pairs(n.keys@.subrange(0, i), n.vals@.subrange(0, i))
    } else {
        gather(n.keys@.subrange(0, i), n.vals@.subrange(0, i), n.children@.subrange(0, i))
    }
}

/// Entries of child `i` (none in a leaf).
pub open spec fn mid<V>(n: BTreeNode<V>, i: int) -> Seq<(u64, V)> {
    if n.leaf {
        Seq::empty()
    } else {
        flat(n.children@[i])
    }
}

/// Entries of `n` from key `i` on.
pub open spec fn above<V>(n: BTreeNode<V>, i: int) -> Seq<(u64, V)> {
    let m = n.keys.len() as int;
    if n.leaf {
        pairs(n.keys@.subrange(i, m), n.vals@.subrange(i, m))
    } else if i < m {
        seq![(n.keys@[i], n.vals@[i])] + inner(
            n.keys@.subrange(i + 1, m),
            n.vals@.subrange(i + 1, m),
            n.children@.subrange(i + 1, m + 1),
        )
    } else {
        Seq::empty()
    }
}

/// The entries of a node around child `i`: those before it, the child's, and those from key `i` on.
pub proof fn lemma_decompose<V>(n: BTreeNode<V>, i: int)
    requires
        local(n),
        0 <= i <= n.keys.len(),
    ensures
        flat(n) == below(n, i) + mid(n, i) + above(n, i),
        i < n.keys.len() ==> above(n, i).len() > 0 && above(n, i)[0] == (n.keys@[i], n.vals@[i]),
        i < n.keys.len() ==> below(n, i + 1) == below(n, i) + mid(n, i) + seq![(n.keys@[i], n.vals@[i])],
        0 < i ==> below(n, i).len() > 0 && below(n, i).last() == (n.keys@[i - 1], n.vals@[i - 1]),
{
    let k = n.keys@;
    let v = n.vals@;
    let c = n.children@;
    let m = k.len() as int;
    if n.leaf {
        assert(flat(n) =~= below(n, i) + mid(n, i) + above(n, i));
        if i < m {
            assert(below(n, i + 1) =~= below(n, i) + mid(n, i) + seq![(k[i], v[i])]);
        }
    } else {
        lemma_inner_split(k, v, c, i);
        let ks = k.subrange(i, m);
        let vs = v.subrange(i, m);
        let cs = c.subrange(i, m + 1);
        if i < m {
            lemma_inner_head(ks, vs, cs);
            assert(ks.subrange(1, ks.len() as int) =~= k.subrange(i + 1, m));
            assert(vs.subrange(1, vs.len() as int) =~= v.subrange(i + 1, m));
            assert(cs.subrange(1, cs.len() as int) =~= c.subrange(i + 1, m + 1));
            assert(flat(n) =~= below(n, i) + mid(n, i) + above(n, i));
            let k1 = k.subrange(0, i + 1);
            let v1 = v.subrange(0, i + 1);
            let c1 = c.subrange(0, i + 1);
            assert(k1.drop_last() =~= k.subrange(0, i));
            assert(v1.drop_last() =~= v.subrange(0, i));
            assert(c1.drop_last() =~= c.subrange(0, i));
            assert(below(n, i + 1) =~= below(n, i) + mid(n, i) + seq![(k[i], v[i])]);
        } else {
            lemma_inner_single(ks, vs, cs);
            assert(flat(n) =~= below(n, i) + mid(n, i) + above(n, i));
        }
    }
    if 0 < i {
        if n.leaf {
        } else {
            let k1 = k.subrange(0, i);
            let v1 = v.subrange(0, i);
            let c1 = c.subrange(0, i);
            assert(k1.last() == k[i - 1]);
            assert(v1.last() == v[i - 1]);
        }
    }
}

/// In a sorted sequence every key is at most the last one.
pub proof fn lemma_sorted_bounds<V>(s: Seq<(u64, V)>)
    requires
        sorted(s),
        s.len() > 0,
    ensures
        forall|j: int| 0 <= j < s.len() ==> #[trigger] s[j].0 <= s.last().0,
        forall|j: int| 0 <= j < s.len() ==> s[0].0 <= #[trigger] s[j].0,
{
    assert forall|j: int| 0 <= j < s.len() implies #[trigger] s[j].0 <= s.last().0 by {
        if j < s.len() - 1 {
            assert(s[j].0 < s[s.len() - 1].0);
        }
    }
    assert forall|j: int| 0 <= j < s.len() implies s[0].0 <= #[trigger] s[j].0 by {
        if 0 < j {
            assert(s[0].0 < s[j].0);
        }
    }
}

/// A sorted `a + x + b`: `x` is sorted and the map of the whole is the union of the parts.
pub proof fn lemma_three<V>(a: Seq<(u64, V)>, x: Seq<(u64, V)>, b: Seq<(u64, V)>)
    requires
        sorted(a + x + b),
    ensures
        sorted(a),
        sorted(x),
        sorted(b),
        precedes(a, x),
        precedes(x, b),
        precedes(a, b),
        entries_map(a + x + b) == entries_map(a).union_prefer_right(entries_map(x)).union_prefer_right(entries_map(b)),
{
    lemma_sorted_concat(a + x, b);
    lemma_sorted_concat(a, x);
    lemma_map_concat(a + x, b);
    lemma_map_concat(a, x);
    assert forall|i: int, j: int| 0 <= i < a.len() && 0 <= j < b.len() implies #[trigger] a[i].0 < #[trigger] b[j].0 by {
        assert((a + x)[i] == a[i]);
    }
    assert forall|i: int, j: int| 0 <= i < x.len() && 0 <= j < b.len() implies #[trigger] x[i].0 < #[trigger] b[j].0 by {
        assert((a + x)[a.len() + i] == x[i]);
    }
}



/// A node cut at key `t - 1`: the left part, that key, the right part.
pub proof fn lemma_node_cut<V>(c: BTreeNode<V>, l: BTreeNode<V>, r: BTreeNode<V>, t: int)
    requires
        local(c),
        1 <= t <= c.keys.len(),
        l.leaf == c.leaf,
        r.leaf == c.leaf,
        l.keys@ == c.keys@.subrange(0, t - 1),
        l.vals@ == c.vals@.subrange(0, t - 1),
        r.keys@ == c.keys@.subrange(t, c.keys.len() as int),
        r.vals@ == c.vals@.subrange(t, c.vals.len() as int),
        !c.leaf ==> l.children@ == c.children@.subrange(0, t),
        !c.leaf ==> r.children@ == c.children@.subrange(t, c.children.len() as int),
    ensures
        flat(c) == flat(l) + seq![(c.keys@[t - 1], c.vals@[t - 1])] + flat(r),
{
    let k = c.keys@;
    let v = c.vals@;
    if c.leaf {
        assert(flat(c) =~= flat(l) + seq![(k[t - 1], v[t - 1])] + flat(r));
    } else {
        let cc = c.children@;
        lemma_inner_split(k, v, cc, t);
        let kt = k.subrange(0, t);
        let vt = v.subrange(0, t);
        let ct = cc.subrange(0, t);
        assert(kt.drop_last() =~= l.keys@);
        assert(vt.drop_last() =~= l.vals@);
        assert(ct.drop_last() =~= l.children@.drop_last());
        assert(ct.last() == l.children@.last());
        assert(flat(c) =~= flat(l) + seq![(k[t - 1], v[t - 1])] + flat(r));
    }
}

/// Replacing child `i` of an internal node by `l`, key `(k, v)` and `r`.
pub proof fn lemma_node_widen<V>(p: BTreeNode<V>, q: BTreeNode<V>, i: int, l: BTreeNode<V>, k: u64, v: V, r: BTreeNode<V>)
    requires
        local(p),
        !p.leaf,
        !q.leaf,
        0 <= i <= p.keys.len(),
        q.keys@ == p.keys@.insert(i, k),
        q.vals@ == p.vals@.insert(i, v),
        q.children@ == p.children@.update(i, l).insert(i + 1, r),
    ensures
        local(q),
        flat(q) == below(p, i) + flat(l) + seq![(k, v)] + flat(r) + above(p, i),
        flat(p) == below(p, i) + flat(p.children@[i]) + above(p, i),
{
    lemma_decompose(p, i);
    lemma_decompose(q, i);
    lemma_decompose(q, i + 1);
    assert(below(q, i) =~= below(p, i)) by {
        assert(q.keys@.subrange(0, i) =~= p.keys@.subrange(0, i));
        assert(q.vals@.subrange(0, i) =~= p.vals@.subrange(0, i));
        assert(q.children@.subrange(0, i) =~= p.children@.subrange(0, i));
    }
    assert(mid(q, i) == flat(l));
    assert(mid(q, i + 1) == flat(r));
    assert(above(q, i + 1) =~= above(p, i)) by {
        let m = p.keys.len() as int;
        if i < m {
            assert(q.keys@.subrange(i + 2, m + 1) =~= p.keys@.subrange(i + 1, m));
            assert(q.vals@.subrange(i + 2, m + 1) =~= p.vals@.subrange(i + 1, m));
            assert(q.children@.subrange(i + 2, m + 2) =~= p.children@.subrange(i + 1, m + 1));
            assert(q.keys@[i + 1] == p.keys@[i]);
            assert(q.vals@[i + 1] == p.vals@[i]);
        }
    }
    assert(flat(q) =~= below(p, i) + flat(l) + seq![(k, v)] + flat(r) + above(p, i));
}


/// Child `j` of an internal node replaced by `c2`, whose keys are those of the
/// old child and possibly `key`, which lies between the neighbouring keys.
pub proof fn lemma_child_replace<V>(n: BTreeNode<V>, n2: BTreeNode<V>, j: int, c2: BTreeNode<V>, key: u64)
    requires
        local(n),
        !n.leaf,
        sorted(flat(n)),
        0 <= j <= n.keys.len(),
        n2.leaf == n.leaf,
        n2.keys@ == n.keys@,
        n2.vals@ == n.vals@,
        n2.children@ == n.children@.update(j, c2),
        sorted(flat(c2)),
        j > 0 ==> n.keys@[j - 1] < key,
        j < n.keys.len() ==> key < n.keys@[j],
        forall|k: u64| #[trigger] entries_map(flat(c2)).contains_key(k) ==> entries_map(flat(n.children@[j])).contains_key(k) || k == key,
    ensures
        local(n2),
        sorted(flat(n2)),
        sorted(flat(n.children@[j])),
        entries_map(flat(n)) == entries_map(below(n, j)).union_prefer_right(entries_map(flat(n.children@[j]))).union_prefer_right(entries_map(above(n, j))),
        entries_map(flat(n2)) == entries_map(below(n, j)).union_prefer_right(entries_map(flat(c2))).union_prefer_right(entries_map(above(n, j))),
        !entries_map(below(n, j)).contains_key(key),
        !entries_map(above(n, j)).contains_key(key),
{
    let b = below(n, j);
    let a = above(n, j);
    let c = flat(n.children@[j]);
    let x = flat(c2);
    lemma_decompose(n, j);
    lemma_decompose(n2, j);
    let m = n.keys.len() as int;
    assert(n2.children@.subrange(0, j) =~= n.children@.subrange(0, j));
    assert(below(n2, j) == b);
    if j < m {
        assert(n2.children@.subrange(j + 1, m + 1) =~= n.children@.subrange(j + 1, m + 1));
    }
    assert(above(n2, j) == a);
    assert(mid(n2, j) == x);
    lemma_three(b, c, a);
    if j > 0 {
        lemma_sorted_bounds(b);
    }
    if j < m {
        lemma_sorted_bounds(a);
    }
    lemma_absent_below(b, key);
    lemma_absent_above(a, key);
    assert forall|p: int, q: int| 0 <= p < b.len() && 0 <= q < x.len() implies #[trigger] b[p].0 < #[trigger] x[q].0 by {
        lemma_has_key(x, q);
        if x[q].0 != key {
            let r = choose|r: int| 0 <= r < c.len() && #[trigger] c[r].0 == x[q].0;
            assert(b[p].0 < c[r].0);
        }
    }
    assert forall|p: int, q: int| 0 <= p < x.len() && 0 <= q < a.len() implies #[trigger] x[p].0 < #[trigger] a[q].0 by {
        lemma_has_key(x, p);
        if x[p].0 != key {
            let r = choose|r: int| 0 <= r < c.len() && #[trigger] c[r].0 == x[p].0;
            assert(c[r].0 < a[q].0);
        }
    }
    lemma_sorted_concat(b, x);
    assert forall|p: int, q: int| 0 <= p < (b + x).len() && 0 <= q < a.len() implies #[trigger] (b + x)[p].0 < #[trigger] a[q].0 by {
        if p < b.len() {
            assert((b + x)[p] == b[p]);
        } else {
            assert((b + x)[p] == x[p - b.len()]);
        }
    }
    lemma_sorted_concat(b + x, a);
    lemma_three(b, x, a);
}


/// A new value for key `i` of a node.
pub proof fn lemma_node_value<V>(n: BTreeNode<V>, n2: BTreeNode<V>, i: int, v: V)
    requires
        local(n),
        sorted(flat(n)),
        0 <= i < n.keys.len(),
        n2.leaf == n.leaf,
        n2.keys@ == n.keys@,
        n2.vals@ == n.vals@.update(i, v),
        n2.children@ == n.children@,
    ensures
        local(n2),
        sorted(flat(n2)),
        entries_map(flat(n2)) == entries_map(flat(n)).insert(n.keys@[i], v),
{
    lemma_decompose(n, i);
    lemma_decompose(n2, i);
    assert(below(n2, i) =~= below(n, i)) by {
        assert(n2.vals@.subrange(0, i) =~= n.vals@.subrange(0, i));
    }
    let m = n.keys.len() as int;
    assert(above(n2, i) =~= above(n, i).update(0, (n.keys@[i], v))) by {
        assert(n2.vals@.subrange(i + 1, m) =~= n.vals@.subrange(i + 1, m));
        assert(n2.vals@.subrange(i, m) =~= n.vals@.subrange(i, m).update(0, v));
    }
    let pos: int = (below(n, i).len() + mid(n, i).len()) as int;
    assert(flat(n2) =~= flat(n).update(pos, (n.keys@[i], v)));
    assert(flat(n)[pos] == above(n, i)[0]);
    lemma_seq_update(flat(n), pos, v);
}

/// Key `(k, v)` placed at index `i` of a leaf.
pub proof fn lemma_leaf_insert<V>(n: BTreeNode<V>, n2: BTreeNode<V>, i: int, k: u64, v: V)
    requires
        local(n),
        n.leaf,
        sorted(flat(n)),
        0 <= i <= n.keys.len(),
        i > 0 ==> n.keys@[i - 1] < k,
        i < n.keys.len() ==> k < n.keys@[i],
        n2.leaf,
        n2.keys@ == n.keys@.insert(i, k),
        n2.vals@ == n.vals@.insert(i, v),
        n2.children@ == n.children@,
    ensures
        local(n2),
        sorted(flat(n2)),
        entries_map(flat(n2)) == entries_map(flat(n)).insert(k, v),
{
    assert(flat(n2) =~= flat(n).insert(i, (k, v)));
    lemma_seq_insert(flat(n), i, k, v);
}


/// Child `i` replaced by a subtree of the same height that is filled.
pub proof fn lemma_children_update<V>(n: BTreeNode<V>, n2: BTreeNode<V>, i: int, h: nat, t: int)
    requires
        shaped(n, h),
        within(n, t),
        !n.leaf,
        0 <= i < n.children.len(),
        n2.leaf == n.leaf,
        n2.keys.len() == n.keys.len(),
        n2.vals.len() == n.vals.len(),
        n2.children@ == n.children@.update(i, n2.children@[i]),
        shaped(n2.children@[i], (h - 1) as nat),
        filled(n2.children@[i], t),
    ensures
        shaped(n2, h),
        within(n2, t),
{
    assert forall|j: int| 0 <= j < n2.children.len() implies shaped(#[trigger] n2.children@[j], (h - 1) as nat)
        && filled(n2.children@[j], t) by {
        if j != i {
            assert(n2.children@[j] == n.children@[j]);
        }
    }
}


/// The two children around key `j`.
pub proof fn lemma_pair<V>(p: BTreeNode<V>, j: int)
    requires
        local(p),
        !p.leaf,
        0 <= j < p.keys.len(),
    ensures
        flat(p) == below(p, j) + flat(p.children@[j]) + seq![(p.keys@[j], p.vals@[j])] + flat(p.children@[j + 1])
            + above(p, j + 1),
{
    lemma_decompose(p, j);
    lemma_decompose(p, j + 1);
    assert(flat(p) =~= below(p, j) + flat(p.children@[j]) + seq![(p.keys@[j], p.vals@[j])] + flat(p.children@[j + 1])
        + above(p, j + 1));
}

/// Key `j` and the two children around it replaced.
pub proof fn lemma_pair_replace<V>(p: BTreeNode<V>, pn: BTreeNode<V>, j: int, a: BTreeNode<V>, k: u64, v: V, b: BTreeNode<V>)
    requires
        local(p),
        !p.leaf,
        0 <= j < p.keys.len(),
        !pn.leaf,
        pn.keys@ == p.keys@.update(j, k),
        pn.vals@ == p.vals@.update(j, v),
        pn.children@ == p.children@.update(j, a).update(j + 1, b),
    ensures
        local(pn),
        flat(p) == below(p, j) + flat(p.children@[j]) + seq![(p.keys@[j], p.vals@[j])] + flat(p.children@[j + 1])
            + above(p, j + 1),
        flat(pn) == below(p, j) + flat(a) + seq![(k, v)] + flat(b) + above(p, j + 1),
{
    lemma_pair(p, j);
    lemma_pair(pn, j);
    let m = p.keys.len() as int;
    assert(pn.keys@.subrange(0, j) =~= p.keys@.subrange(0, j));
    assert(pn.vals@.subrange(0, j) =~= p.vals@.subrange(0, j));
    assert(pn.children@.subrange(0, j) =~= p.children@.subrange(0, j));
    assert(below(pn, j) == below(p, j));
    if j + 1 < m {
        assert(pn.keys@.subrange(j + 2, m) =~= p.keys@.subrange(j + 2, m));
        assert(pn.vals@.subrange(j + 2, m) =~= p.vals@.subrange(j + 2, m));
        assert(pn.children@.subrange(j + 2, m + 1) =~= p.children@.subrange(j + 2, m + 1));
    }
    assert(above(pn, j + 1) =~= above(p, j + 1));
}

/// Key `j` and the two children around it merged into one child `c`.
pub proof fn lemma_pair_merge<V>(p: BTreeNode<V>, pn: BTreeNode<V>, j: int, c: BTreeNode<V>)
    requires
        local(p),
        !p.leaf,
        0 <= j < p.keys.len(),
        !pn.leaf,
        pn.keys@ == p.keys@.remove(j),
        pn.vals@ == p.vals@.remove(j),
        pn.children@ == p.children@.remove(j + 1).update(j, c),
    ensures
        local(pn),
        flat(p) == below(p, j) + flat(p.children@[j]) + seq![(p.keys@[j], p.vals@[j])] + flat(p.children@[j + 1])
            + above(p, j + 1),
        flat(pn) == below(p, j) + flat(c) + above(p, j + 1),
{
    lemma_pair(p, j);
    lemma_decompose(pn, j);
    let m = p.keys.len() as int;
    assert(pn.keys@.subrange(0, j) =~= p.keys@.subrange(0, j));
    assert(pn.vals@.subrange(0, j) =~= p.vals@.subrange(0, j));
    assert(pn.children@.subrange(0, j) =~= p.children@.subrange(0, j));
    assert(below(pn, j) == below(p, j));
    if j + 1 < m {
        assert(pn.keys@.subrange(j + 1, m - 1) =~= p.keys@.subrange(j + 2, m));
        assert(pn.vals@.subrange(j + 1, m - 1) =~= p.vals@.subrange(j + 2, m));
        assert(pn.children@.subrange(j + 1, m) =~= p.children@.subrange(j + 2, m + 1));
        assert(pn.keys@[j] == p.keys@[j + 1]);
        assert(pn.vals@[j] == p.vals@[j + 1]);
    }
    assert(above(pn, j) =~= above(p, j + 1));
}


/// The entries of a node with the given fields.
pub open spec fn part<V>(leaf: bool, k: Seq<u64>, v: Seq<V>, c: Seq<BTreeNode<V>>) -> Seq<(u64, V)> {
    if leaf {
        pairs(k, v)
    } else {
        inner(k, v, c)
    }
}

/// A node cut at key `t - 1`.
pub proof fn lemma_cut<V>(c: BTreeNode<V>, t: int)
    requires
        local(c),
        1 <= t <= c.keys.len(),
    ensures
        flat(c) == part(c.leaf, c.keys@.subrange(0, t - 1), c.vals@.subrange(0, t - 1), c.children@.subrange(0, t))
            + seq![(c.keys@[t - 1], c.vals@[t - 1])] + part(
            c.leaf,
            c.keys@.subrange(t, c.keys.len() as int),
            c.vals@.subrange(t, c.vals.len() as int),
            c.children@.subrange(t, c.children.len() as int),
        ),
{
    let k = c.keys@;
    let v = c.vals@;
    if c.leaf {
        assert(flat(c) =~= part(c.leaf, k.subrange(0, t - 1), v.subrange(0, t - 1), c.children@.subrange(0, t))
            + seq![(k[t - 1], v[t - 1])] + part(c.leaf, k.subrange(t, k.len() as int), v.subrange(t, v.len() as int),
            c.children@.subrange(t, c.children.len() as int)));
    } else {
        let cc = c.children@;
        lemma_inner_split(k, v, cc, t);
        let kt = k.subrange(0, t);
        let vt = v.subrange(0, t);
        let ct = cc.subrange(0, t);
        let l = cc.subrange(0, t);
        assert(kt.drop_last() =~= k.subrange(0, t - 1));
        assert(vt.drop_last() =~= v.subrange(0, t - 1));
        assert(ct.drop_last() =~= l.drop_last());
        assert(flat(c) =~= part(c.leaf, k.subrange(0, t - 1), v.subrange(0, t - 1), cc.subrange(0, t))
            + seq![(k[t - 1], v[t - 1])] + part(c.leaf, k.subrange(t, k.len() as int), v.subrange(t, v.len() as int),
            cc.subrange(t, cc.len() as int)));
    }
}

/// Rotation of one key from child `idx - 1` through the parent into child `idx`.
pub proof fn lemma_borrow_prev<V>(p0: BTreeNode<V>, pn: BTreeNode<V>, idx: int, s1: BTreeNode<V>, c1: BTreeNode<V>, h: nat, t: int)
    requires
        shaped(p0, h),
        h >= 1,
        sorted(flat(p0)),
        within(p0, t),
        1 <= idx <= p0.keys.len(),
        p0.children@[idx - 1].keys.len() >= t,
        p0.children@[idx].keys.len() == t - 1,
        2 <= t,
        s1.leaf == p0.children@[idx - 1].leaf,
        s1.keys@ == p0.children@[idx - 1].keys@.drop_last(),
        s1.vals@ == p0.children@[idx - 1].vals@.drop_last(),
        !s1.leaf ==> s1.children@ == p0.children@[idx - 1].children@.drop_last(),
        s1.leaf ==> s1.children@.len() == 0,
        c1.leaf == p0.children@[idx].leaf,
        c1.keys@ == seq![p0.keys@[idx - 1]] + p0.children@[idx].keys@,
        c1.vals@ == seq![p0.vals@[idx - 1]] + p0.children@[idx].vals@,
        !c1.leaf ==> c1.children@ == seq![p0.children@[idx - 1].children@.last()] + p0.children@[idx].children@,
        c1.leaf ==> c1.children@.len() == 0,
        pn.leaf == p0.leaf,
        pn.keys@ == p0.keys@.update(idx - 1, p0.children@[idx - 1].keys@.last()),
        pn.vals@ == p0.vals@.update(idx - 1, p0.children@[idx - 1].vals@.last()),
        pn.children@ == p0.children@.update(idx - 1, s1).update(idx, c1),
    ensures
        shaped(pn, h),
        within(pn, t),
        flat(pn) == flat(p0),
        pn.children@[idx].keys.len() == t,
        pn.keys@[idx - 1] < p0.keys@[idx - 1],
{
    let s0 = p0.children@[idx - 1];
    let c0 = p0.children@[idx];
    assert(shaped(s0, (h - 1) as nat) && filled(s0, t));
    assert(shaped(c0, (h - 1) as nat) && filled(c0, t));
    let sl = s0.keys.len() as int;
    lemma_cut(s0, sl);
    lemma_cut(c1, 1);
    assert(s1.keys@ =~= s0.keys@.subrange(0, sl - 1));
    assert(s1.vals@ =~= s0.vals@.subrange(0, sl - 1));
    assert(c1.keys@.subrange(1, c1.keys.len() as int) =~= c0.keys@);
    assert(c1.vals@.subrange(1, c1.vals.len() as int) =~= c0.vals@);
    assert(c1.keys@.subrange(0, 0) =~= s0.keys@.subrange(sl, sl));
    assert(c1.vals@.subrange(0, 0) =~= s0.vals@.subrange(sl, sl));
    if !s0.leaf {
        assert(s1.children@ =~= s0.children@.subrange(0, sl));
        assert(c1.children@.subrange(1, c1.children.len() as int) =~= c0.children@);
        assert(c1.children@.subrange(0, 1) =~= s0.children@.subrange(sl, sl + 1));
        assert forall|j: int| 0 <= j < s1.children.len() implies shaped(#[trigger] s1.children@[j], (h - 2) as nat)
            && filled(s1.children@[j], t) by {
            assert(s1.children@[j] == s0.children@[j]);
        }
        assert forall|j: int| 0 <= j < c1.children.len() implies shaped(#[trigger] c1.children@[j], (h - 2) as nat)
            && filled(c1.children@[j], t) by {
            if j == 0 {
                assert(c1.children@[j] == s0.children@[sl]);
            } else {
                assert(c1.children@[j] == c0.children@[j - 1]);
            }
        }
    }
    let x = part(s0.leaf, s0.keys@.subrange(sl, sl), s0.vals@.subrange(sl, sl), s0.children@.subrange(sl, s0.children.len() as int));
    let e = (s0.keys@[sl - 1], s0.vals@[sl - 1]);
    assert(flat(s1) == part(s0.leaf, s0.keys@.subrange(0, sl - 1), s0.vals@.subrange(0, sl - 1), s0.children@.subrange(0, sl)));
    assert(flat(s0) == flat(s1) + seq![e] + x);
    assert(flat(c0) == part(c1.leaf, c1.keys@.subrange(1, c1.keys.len() as int), c1.vals@.subrange(1, c1.vals.len() as int),
        c1.children@.subrange(1, c1.children.len() as int)));
    assert(flat(c1) == x + seq![(p0.keys@[idx - 1], p0.vals@[idx - 1])] + flat(c0));
    lemma_pair_replace(p0, pn, idx - 1, s1, s0.keys@.last(), s0.vals@.last(), c1);
    assert(flat(pn) =~= flat(p0));
    let rest = seq![(p0.keys@[idx - 1], p0.vals@[idx - 1])] + flat(c0) + above(p0, idx);
    assert(flat(p0) =~= below(p0, idx - 1) + flat(s0) + rest);
    lemma_three(below(p0, idx - 1), flat(s0), rest);
    assert(flat(s0)[flat(s1).len() as int] == e);
    assert(rest[0] == (p0.keys@[idx - 1], p0.vals@[idx - 1]));
    assert(flat(s0)[flat(s1).len() as int].0 < rest[0].0);
    assert(pn.keys@[idx - 1] == e.0);
    assert forall|j: int| 0 <= j < pn.children.len() implies shaped(#[trigger] pn.children@[j], (h - 1) as nat)
        && filled(pn.children@[j], t) by {
        if j != idx - 1 && j != idx {
            assert(pn.children@[j] == p0.children@[j]);
        }
    }
}


/// Rotation of one key from child `idx + 1` through the parent into child `idx`.
pub proof fn lemma_borrow_next<V>(p0: BTreeNode<V>, pn: BTreeNode<V>, idx: int, c1: BTreeNode<V>, s1: BTreeNode<V>, h: nat, t: int)
    requires
        shaped(p0, h),
        h >= 1,
        sorted(flat(p0)),
        within(p0, t),
        0 <= idx < p0.keys.len(),
        p0.children@[idx + 1].keys.len() >= t,
        p0.children@[idx].keys.len() == t - 1,
        2 <= t,
        c1.leaf == p0.children@[idx].leaf,
        c1.keys@ == p0.children@[idx].keys@.push(p0.keys@[idx]),
        c1.vals@ == p0.children@[idx].vals@.push(p0.vals@[idx]),
        !c1.leaf ==> c1.children@ == p0.children@[idx].children@.push(p0.children@[idx + 1].children@[0]),
        c1.leaf ==> c1.children@.len() == 0,
        s1.leaf == p0.children@[idx + 1].leaf,
        s1.keys@ == p0.children@[idx + 1].keys@.subrange(1, p0.children@[idx + 1].keys.len() as int),
        s1.vals@ == p0.children@[idx + 1].vals@.subrange(1, p0.children@[idx + 1].vals.len() as int),
        !s1.leaf ==> s1.children@ == p0.children@[idx + 1].children@.subrange(1, p0.children@[idx + 1].children.len() as int),
        s1.leaf ==> s1.children@.len() == 0,
        pn.leaf == p0.leaf,
        pn.keys@ == p0.keys@.update(idx, p0.children@[idx + 1].keys@[0]),
        pn.vals@ == p0.vals@.update(idx, p0.children@[idx + 1].vals@[0]),
        pn.children@ == p0.children@.update(idx, c1).update(idx + 1, s1),
    ensures
        shaped(pn, h),
        within(pn, t),
        flat(pn) == flat(p0),
        pn.children@[idx].keys.len() == t,
        pn.keys@[idx] > p0.keys@[idx],
{
    let c0 = p0.children@[idx];
    let s0 = p0.children@[idx + 1];
    assert(shaped(s0, (h - 1) as nat) && filled(s0, t));
    assert(shaped(c0, (h - 1) as nat) && filled(c0, t));
    lemma_cut(s0, 1);
    lemma_cut(c1, t);
    assert(c1.keys@.subrange(0, t - 1) =~= c0.keys@);
    assert(c1.vals@.subrange(0, t - 1) =~= c0.vals@);
    assert(c1.keys@.subrange(t, t) =~= s0.keys@.subrange(0, 0));
    assert(c1.vals@.subrange(t, t) =~= s0.vals@.subrange(0, 0));
    assert(s1.keys@ =~= s0.keys@.subrange(1, s0.keys.len() as int));
    if !s0.leaf {
        assert(c1.children@.subrange(0, t) =~= c0.children@);
        assert(c1.children@.subrange(t, c1.children.len() as int) =~= s0.children@.subrange(0, 1));
        assert forall|j: int| 0 <= j < s1.children.len() implies shaped(#[trigger] s1.children@[j], (h - 2) as nat)
            && filled(s1.children@[j], t) by {
            assert(s1.children@[j] == s0.children@[j + 1]);
        }
        assert forall|j: int| 0 <= j < c1.children.len() implies shaped(#[trigger] c1.children@[j], (h - 2) as nat)
            && filled(c1.children@[j], t) by {
            if j < t {
                assert(c1.children@[j] == c0.children@[j]);
            } else {
                assert(c1.children@[j] == s0.children@[0]);
            }
        }
    }
    let x = part(s0.leaf, s0.keys@.subrange(0, 0), s0.vals@.subrange(0, 0), s0.children@.subrange(0, 1));
    let e = (s0.keys@[0], s0.vals@[0]);
    assert(flat(s0) == x + seq![e] + flat(s1));
    assert(flat(c1) == flat(c0) + seq![(p0.keys@[idx], p0.vals@[idx])] + x);
    lemma_pair_replace(p0, pn, idx, c1, e.0, e.1, s1);
    assert(flat(pn) =~= flat(p0));
    let first = below(p0, idx) + flat(c0) + seq![(p0.keys@[idx], p0.vals@[idx])];
    assert(flat(p0) =~= first + flat(s0) + above(p0, idx + 1));
    lemma_three(first, flat(s0), above(p0, idx + 1));
    assert(flat(s0)[x.len() as int] == e);
    assert(first[first.len() - 1] == (p0.keys@[idx], p0.vals@[idx]));
    assert(first[first.len() - 1].0 < flat(s0)[x.len() as int].0);
    assert forall|j: int| 0 <= j < pn.children.len() implies shaped(#[trigger] pn.children@[j], (h - 1) as nat)
        && filled(pn.children@[j], t) by {
        if j != idx && j != idx + 1 {
            assert(pn.children@[j] == p0.children@[j]);
        }
    }
}

/// Children `idx` and `idx + 1`, both with `t - 1` keys, merged around their separator.
pub proof fn lemma_merge<V>(p0: BTreeNode<V>, pn: BTreeNode<V>, idx: int, c: BTreeNode<V>, h: nat, t: int)
    requires
        shaped(p0, h),
        h >= 1,
        sorted(flat(p0)),
        within(p0, t),
        0 <= idx < p0.keys.len(),
        p0.children@[idx].keys.len() == t - 1,
        p0.children@[idx + 1].keys.len() == t - 1,
        2 <= t,
        c.leaf == p0.children@[idx].leaf,
        c.keys@ == p0.children@[idx].keys@.push(p0.keys@[idx]) + p0.children@[idx + 1].keys@,
        c.vals@ == p0.children@[idx].vals@.push(p0.vals@[idx]) + p0.children@[idx + 1].vals@,
        c.children@ == p0.children@[idx].children@ + p0.children@[idx + 1].children@,
        pn.leaf == p0.leaf,
        pn.keys@ == p0.keys@.remove(idx),
        pn.vals@ == p0.vals@.remove(idx),
        pn.children@ == p0.children@.remove(idx + 1).update(idx, c),
    ensures
        shaped(pn, h),
        within(pn, t),
        flat(pn) == flat(p0),
        pn.children@[idx].keys.len() == 2 * t - 1,
{
    let l = p0.children@[idx];
    let r = p0.children@[idx + 1];
    assert(shaped(l, (h - 1) as nat) && filled(l, t));
    assert(shaped(r, (h - 1) as nat) && filled(r, t));
    lemma_cut(c, t);
    assert(c.keys@.subrange(0, t - 1) =~= l.keys@);
    assert(c.vals@.subrange(0, t - 1) =~= l.vals@);
    assert(c.keys@.subrange(t, c.keys.len() as int) =~= r.keys@);
    assert(c.vals@.subrange(t, c.vals.len() as int) =~= r.vals@);
    if !l.leaf {
        assert(c.children@.subrange(0, t) =~= l.children@);
        assert(c.children@.subrange(t, c.children.len() as int) =~= r.children@);
        assert forall|j: int| 0 <= j < c.children.len() implies shaped(#[trigger] c.children@[j], (h - 2) as nat)
            && filled(c.children@[j], t) by {
            if j < t {
                assert(c.children@[j] == l.children@[j]);
            } else {
                assert(c.children@[j] == r.children@[j - t]);
            }
        }
    } else {
        assert(c.children@.len() == 0);
    }
    assert(flat(c) == flat(l) + seq![(p0.keys@[idx], p0.vals@[idx])] + flat(r));
    lemma_pair_merge(p0, pn, idx, c);
    assert(flat(pn) =~= flat(p0));
    assert forall|j: int| 0 <= j < pn.children.len() implies shaped(#[trigger] pn.children@[j], (h - 1) as nat)
        && filled(pn.children@[j], t) by {
        if j < idx {
            assert(pn.children@[j] == p0.children@[j]);
        } else if j > idx {
            assert(pn.children@[j] == p0.children@[j + 1]);
        }
    }
}


/// The keys of a node increase.
pub proof fn lemma_keys_increase<V>(n: BTreeNode<V>, i: int)
    requires
        local(n),
        sorted(flat(n)),
        0 <= i,
        i + 1 < n.keys.len(),
    ensures
        n.keys@[i] < n.keys@[i + 1],
{
    lemma_decompose(n, i + 1);
    lemma_three(below(n, i + 1), mid(n, i + 1), above(n, i + 1));
    assert(below(n, i + 1)[below(n, i + 1).len() - 1].0 < above(n, i + 1)[0].0);
}

/// No key of a sorted sequence whose last key is below `k` equals `k`.
pub proof fn lemma_absent_below<V>(s: Seq<(u64, V)>, k: u64)
    requires
        sorted(s),
        s.len() == 0 || s.last().0 < k,
    ensures
        !entries_map(s).contains_key(k),
{
    if has_key(s, k) {
        let j = choose|j: int| 0 <= j < s.len() && #[trigger] s[j].0 == k;
        lemma_sorted_bounds(s);
    }
}

/// No key of a sorted sequence whose first key is above `k` equals `k`.
pub proof fn lemma_absent_above<V>(s: Seq<(u64, V)>, k: u64)
    requires
        sorted(s),
        s.len() == 0 || s[0].0 > k,
    ensures
        !entries_map(s).contains_key(k),
{
    if has_key(s, k) {
        let j = choose|j: int| 0 <= j < s.len() && #[trigger] s[j].0 == k;
        lemma_sorted_bounds(s);
    }
}

impl<V> BTreeNode<V> {
    fn new(leaf: bool) -> (n: Self)
        ensures
            n.leaf == leaf,
            n.keys@.len() == 0,
            n.vals@.len() == 0,
            n.children@.len() == 0,
    {
        BTreeNode { keys: Vec::new(), vals: Vec::new(), children: Vec::new(), leaf }
    }
}

pub struct BTreeMap<V> {
    root: BTreeNode<V>,
    min_degree: usize,
    height: Ghost<nat>,
}

impl<V> View for BTreeMap<V> {
    type V = Map<u64, V>;

    closed spec fn view(&self) -> Map<u64, V> {
        entries_map(flat(self.root))
    }
}

impl<V> BTreeMap<V> {
    /// The tree is well shaped and its in-order entries are sorted.
    pub closed spec fn wf(&self) -> bool {
        &&& 2 <= self.min_degree
        &&& 2 * self.min_degree <= usize::MAX
        &&& shaped(self.root, self.height@)
        &&& sorted(flat(self.root))
        &&& within(self.root, self.min_degree as int)
        &&& !self.root.leaf ==> self.root.keys.len() >= 1
    }

    /// The minimum degree the tree was made with.
    pub closed spec fn degree(&self) -> nat {
        self.min_degree as nat
    }

    /// The keys in in-order traversal.
    pub closed spec fn in_order_keys(&self) -> Seq<u64> {
        flat(self.root).map_values(|e: (u64, V)| e.0)
    }

    /// The root node.
    pub closed spec fn root_node(&self) -> BTreeNode<V> {
        self.root
    }

    /// The number of levels below the root.
    pub closed spec fn depth(&self) -> nat {
        self.height@
    }

    /// The tree holds finitely many keys.
    pub proof fn lemma_view_finite(&self)
        ensures
            self@.dom().finite(),
    {
        lemma_map_finite(flat(self.root));
    }

    /// An in-order traversal of the tree visits its keys in strictly increasing order,
    /// each key of the map once.
    pub proof fn lemma_in_order(&self)
        requires
            self.wf(),
        ensures
            forall|i: int, j: int| 0 <= i < j < self.in_order_keys().len() ==> self.in_order_keys()[i] < self.in_order_keys()[j],
            forall|k: u64| self@.contains_key(k) <==> self.in_order_keys().contains(k),
    {
        let f = flat(self.root);
        let ks = self.in_order_keys();
        assert forall|k: u64| self@.contains_key(k) <==> ks.contains(k) by {
            if self@.contains_key(k) {
                let j = choose|j: int| 0 <= j < f.len() && #[trigger] f[j].0 == k;
                assert(ks[j] == k);
            }
            if ks.contains(k) {
                let j = choose|j: int| 0 <= j < ks.len() && ks[j] == k;
                assert(f[j].0 == k);
                lemma_has_key(f, j);
            }
        }
    }

    /// Fill and depth: every node but the root holds between `t - 1` and `2t - 1`
    /// keys, the root at most `2t - 1`, and every leaf lies at the same depth.
    pub proof fn lemma_fill(&self)
        requires
            self.wf(),
        ensures
            within(self.root_node(), self.degree() as int),
            shaped(self.root_node(), self.depth()),
            !self.root_node().leaf ==> self.root_node().keys.len() >= 1,
    {
    }

    /// Makes an empty tree; a minimum degree below 2 is refused by the precondition.
    pub fn new(min_degree: usize) -> (t: Self)
        requires
            2 <= min_degree,
            2 * min_degree <= usize::MAX,
        ensures
            t.wf(),
            t@ == Map::<u64, V>::empty(),
            t.degree() == min_degree,
    {
        let t = BTreeMap { root: BTreeNode::new(true), min_degree, height: Ghost(0) };
        assert(flat(t.root) =~= Seq::<(u64, V)>::empty());
        proof {
            lemma_map_empty(flat(t.root));
        }
        t
    }

    /// Looks `key` up.
    pub fn get(&self, key: &u64) -> (r: Option<&V>)
        requires
            self.wf(),
        ensures
            r == (if self@.contains_key(*key) { Some(&self@[*key]) } else { None::<&V> }),
    {
        self.search(&self.root, key, Ghost(self.height@))
    }

    fn search<'a>(&'a self, node: &'a BTreeNode<V>, key: &u64, Ghost(h): Ghost<nat>) -> (r: Option<&'a V>)
        requires
            shaped(*node, h),
            sorted(flat(*node)),
        ensures
            r == (if entries_map(flat(*node)).contains_key(*key) {
                Some(&entries_map(flat(*node))[*key])
            } else {
                None::<&V>
            }),
        decreases *node,
    {
        let mut i: usize = 0;
        while i < node.keys.len() && *key > node.keys[i]
            invariant
                local(*node),
                0 <= i <= node.keys.len(),
                forall|j: int| 0 <= j < i ==> node.keys@[j] < *key,
            decreases node.keys.len() - i,
        {
            i += 1;
        }
        let ghost n = *node;
        proof {
            lemma_decompose(n, i as int);
            lemma_three(below(n, i as int), mid(n, i as int), above(n, i as int));
            if i > 0 {
                lemma_absent_below(below(n, i as int), *key);
            } else {
                lemma_absent_below(below(n, i as int), *key);
            }
        }
        if i < node.keys.len() && node.keys[i] == *key {
            proof {
                let idx: int = (below(n, i as int).len() + mid(n, i as int).len()) as int;
                assert(flat(n)[idx] == above(n, i as int)[0]);
                lemma_entry_found(flat(n), idx);
            }
            Some(&node.vals[i])
        } else {
            proof {
                lemma_absent_above(above(n, i as int), *key);
            }
            if node.leaf {
                proof {
                    lemma_map_empty(mid(n, i as int));
                }
                None
            } else {
                self.search(&node.children[i], key, Ghost((h - 1) as nat))
            }
        }
    }

    /// Splits the full child `i` of `parent` around its middle key, which moves up into `parent`.
    fn split_child(t: usize, parent: &mut BTreeNode<V>, i: usize, Ghost(h): Ghost<nat>)
        requires
            shaped(*old(parent), h),
            h >= 1,
            sorted(flat(*old(parent))),
            within(*old(parent), t as int),
            old(parent).keys.len() < 2 * t - 1,
            i < old(parent).children.len(),
            old(parent).children@[i as int].keys.len() == 2 * t - 1,
            2 <= t,
            2 * t <= usize::MAX,
        ensures
            shaped(*final(parent), h),
            within(*final(parent), t as int),
            flat(*final(parent)) == flat(*old(parent)),
            final(parent).keys@ == old(parent).keys@.insert(i as int, old(parent).children@[i as int].keys@[t - 1]),
            final(parent).vals@ == old(parent).vals@.insert(i as int, old(parent).children@[i as int].vals@[t - 1]),
            final(parent).children@[i as int].keys.len() == t - 1,
            final(parent).children@[i + 1].keys.len() == t - 1,
            flat(*final(parent)) == below(*old(parent), i as int) + flat(final(parent).children@[i as int])
                + seq![(final(parent).keys@[i as int], final(parent).vals@[i as int])]
                + flat(final(parent).children@[i + 1]) + above(*old(parent), i as int),
            final(parent).leaf == old(parent).leaf,
            final(parent).children@ == old(parent).children@.update(i as int, final(parent).children@[i as int]).insert(
                i + 1,
                final(parent).children@[i + 1],
            ),
            node_split(old(parent).children@[i as int], final(parent).children@[i as int], final(parent).children@[i + 1], t as int),
    {
        let ghost p0 = *parent;
        let mut child = parent.children.remove(i);
        let ghost c = child;
        assert(shaped(c, (h - 1) as nat));
        assert(filled(c, t as int));
        let mut right = BTreeNode::new(child.leaf);
        right.keys = child.keys.split_off(t);
        right.vals = child.vals.split_off(t);
        let up_key = child.keys.pop().unwrap();
        let up_val = child.vals.pop().unwrap();
        if !child.leaf {
            right.children = child.children.split_off(t);
        }
        proof {
            assert(child.keys@ =~= c.keys@.subrange(0, t - 1));
            assert(child.vals@ =~= c.vals@.subrange(0, t - 1));
            lemma_node_cut(c, child, right, t as int);
            if !c.leaf {
                assert forall|j: int| 0 <= j < child.children.len() implies shaped(#[trigger] child.children@[j], (h - 2) as nat)
                    && filled(child.children@[j], t as int) by {
                    assert(child.children@[j] == c.children@[j]);
                }
                assert forall|j: int| 0 <= j < right.children.len() implies shaped(#[trigger] right.children@[j], (h - 2) as nat)
                    && filled(right.children@[j], t as int) by {
                    assert(right.children@[j] == c.children@[j + t]);
                }
            }
            assert(shaped(child, (h - 1) as nat));
            assert(shaped(right, (h - 1) as nat));
            assert(filled(child, t as int));
            assert(filled(right, t as int));
        }
        parent.keys.insert(i, up_key);
        parent.vals.insert(i, up_val);
        parent.children.insert(i, child);
        parent.children.insert(i + 1, right);
        proof {
            assert(parent.children@ =~= p0.children@.update(i as int, child).insert(i + 1, right));
            lemma_node_widen(p0, *parent, i as int, child, up_key, up_val, right);
            assert forall|j: int| 0 <= j < parent.children.len() implies shaped(#[trigger] parent.children@[j], (h - 1) as nat)
                && filled(parent.children@[j], t as int) by {
                if j < i {
                    assert(parent.children@[j] == p0.children@[j]);
                } else if j > i + 1 {
                    assert(parent.children@[j] == p0.children@[j - 1]);
                }
            }
            assert(flat(*parent) =~= flat(p0));
        }
    }

    fn insert_non_full(t: usize, node: &mut BTreeNode<V>, key: u64, value: V, Ghost(h): Ghost<nat>)
        requires
            shaped(*old(node), h),
            sorted(flat(*old(node))),
            within(*old(node), t as int),
            old(node).keys.len() < 2 * t - 1,
            2 <= t,
            2 * t <= usize::MAX,
        ensures
            shaped(*final(node), h),
            sorted(flat(*final(node))),
            within(*final(node), t as int),
            final(node).keys.len() >= old(node).keys.len(),
            entries_map(flat(*final(node))) == entries_map(flat(*old(node))).insert(key, value),
        decreases h, 1nat,
    {
        let ghost n0 = *node;
        let mut i: usize = node.keys.len();
        while i > 0 && key < node.keys[i - 1]
            invariant
                n0 == *node,
                local(*node),
                0 <= i <= node.keys.len(),
                forall|j: int| i <= j < node.keys.len() ==> key < node.keys@[j],
            decreases i,
        {
            i -= 1;
        }
        if i > 0 && node.keys[i - 1] == key {
            node.vals.set(i - 1, value);
            proof {
                lemma_node_value(n0, *node, i - 1, value);
                assert(node.children@ == n0.children@);
            }
            return;
        }
        if node.leaf {
            node.keys.insert(i, key);
            node.vals.insert(i, value);
            proof {
                lemma_leaf_insert(n0, *node, i as int, key, value);
            }
        } else {
            if node.children[i].keys.len() == 2 * t - 1 {
                Self::split_child(t, node, i, Ghost(h));
                let ghost n1 = *node;
                if node.keys[i] == key {
                    node.vals.set(i, value);
                    proof {
                        lemma_node_value(n1, *node, i as int, value);
                        assert(node.children@ == n1.children@);
                        assert(entries_map(flat(*node)) == entries_map(flat(n0)).insert(key, value));
                    }
                    return;
                }
                if key > node.keys[i] {
                    i += 1;
                }
            }
            Self::insert_into_child(t, node, i, key, value, Ghost(h));
        }
    }

    /// Inserts into child `i`, which is not full and whose key range holds `key`.
    fn insert_into_child(t: usize, node: &mut BTreeNode<V>, i: usize, key: u64, value: V, Ghost(h): Ghost<nat>)
        requires
            shaped(*old(node), h),
            !old(node).leaf,
            sorted(flat(*old(node))),
            within(*old(node), t as int),
            i <= old(node).keys.len(),
            i > 0 ==> old(node).keys@[i - 1] < key,
            i < old(node).keys.len() ==> key < old(node).keys@[i as int],
            old(node).children@[i as int].keys.len() < 2 * t - 1,
            2 <= t,
            2 * t <= usize::MAX,
        ensures
            shaped(*final(node), h),
            sorted(flat(*final(node))),
            within(*final(node), t as int),
            final(node).keys@ == old(node).keys@,
            entries_map(flat(*final(node))) == entries_map(flat(*old(node))).insert(key, value),
        decreases h, 0nat,
    {
        let ghost n1 = *node;
        proof {
            assert(shaped(n1.children@[i as int], (h - 1) as nat));
            assert(filled(n1.children@[i as int], t as int));
            lemma_decompose(n1, i as int);
            lemma_three(below(n1, i as int), mid(n1, i as int), above(n1, i as int));
        }
        let mut child = node.children.remove(i);
        Self::insert_non_full(t, &mut child, key, value, Ghost((h - 1) as nat));
        node.children.insert(i, child);
        proof {
            assert(node.children@ =~= n1.children@.update(i as int, child));
            lemma_child_replace(n1, *node, i as int, child, key);
            lemma_children_update(n1, *node, i as int, h, t as int);
            assert(entries_map(flat(*node)) =~= entries_map(flat(n1)).insert(key, value));
        }
    }

    /// Inserts `key` with `value`, replacing the value of a key already present.
    pub fn insert(&mut self, key: u64, value: V)
        requires
            old(self).wf(),
        ensures
            final(self).wf(),
            final(self)@ == old(self)@.insert(key, value),
            final(self).degree() == old(self).degree(),
    {
        let t = self.min_degree;
        if self.root.keys.len() == 2 * t - 1 {
            let mut new_root = BTreeNode::new(false);
            std::mem::swap(&mut self.root, &mut new_root);
            let ghost old_root = new_root;
            self.root.children.push(new_root);
            proof {
                assert(self.root.children@[0] == old_root);
                lemma_inner_single(self.root.keys@, self.root.vals@, self.root.children@);
                assert(shaped(self.root, self.height@ + 1));
                assert(within(self.root, t as int));
            }
            Self::split_child(t, &mut self.root, 0, Ghost(self.height@ + 1));
            self.height = Ghost(self.height@ + 1);
        }
        Self::insert_non_full(t, &mut self.root, key, value, Ghost(self.height@));
    }

    /// Moves the last key of child `idx - 1` up into the parent and the parent's
    /// separator down to the front of child `idx`.
    fn borrow_from_prev(t: usize, node: &mut BTreeNode<V>, idx: usize, Ghost(h): Ghost<nat>)
        requires
            shaped(*old(node), h),
            h >= 1,
            sorted(flat(*old(node))),
            within(*old(node), t as int),
            1 <= idx <= old(node).keys.len(),
            old(node).children@[idx - 1].keys.len() >= t,
            old(node).children@[idx as int].keys.len() == t - 1,
            2 <= t,
            2 * t <= usize::MAX,
        ensures
            shaped(*final(node), h),
            within(*final(node), t as int),
            flat(*final(node)) == flat(*old(node)),
            final(node).keys.len() == old(node).keys.len(),
            final(node).children@[idx as int].keys.len() == t,
            forall|j: int| 0 <= j < final(node).keys.len() && j != idx - 1 ==> final(node).keys@[j] == old(node).keys@[j],
            final(node).keys@[idx - 1] < old(node).keys@[idx - 1],
    {
        let ghost p0 = *node;
        let ghost s0 = p0.children@[idx - 1];
        let ghost c0 = p0.children@[idx as int];
        proof {
            assert(shaped(s0, (h - 1) as nat) && filled(s0, t as int));
            assert(shaped(c0, (h - 1) as nat) && filled(c0, t as int));
        }
        let mut sibling = node.children.remove(idx - 1);
        let mut child = node.children.remove(idx - 1);
        let sk = sibling.keys.pop().unwrap();
        let mut sv = sibling.vals.pop().unwrap();
        let moved = sibling.children.pop();
        let sep_k = node.keys[idx - 1];
        node.keys.set(idx - 1, sk);
        node.vals.set_and_swap(idx - 1, &mut sv);
        child.keys.insert(0, sep_k);
        child.vals.insert(0, sv);
        match moved {
            Some(c) => {
                child.children.insert(0, c);
            },
            None => {},
        }
        let ghost s1 = sibling;
        let ghost c1 = child;
        node.children.insert(idx - 1, sibling);
        node.children.insert(idx, child);
        proof {
            assert(s1.keys@ =~= s0.keys@.drop_last());
            assert(s1.vals@ =~= s0.vals@.drop_last());
            assert(c1.keys@ =~= seq![p0.keys@[idx - 1]] + c0.keys@);
            assert(c1.vals@ =~= seq![p0.vals@[idx - 1]] + c0.vals@);
            if !s0.leaf {
                assert(s1.children@ =~= s0.children@.drop_last());
                assert(c1.children@ =~= seq![s0.children@.last()] + c0.children@);
            }
            assert(node.children@ =~= p0.children@.update(idx - 1, s1).update(idx as int, c1));
            assert(node.keys@ =~= p0.keys@.update(idx - 1, s0.keys@.last()));
            assert(node.vals@ =~= p0.vals@.update(idx - 1, s0.vals@.last()));
            lemma_borrow_prev(p0, *node, idx as int, s1, c1, h, t as int);
        }
    }

    /// Moves the first key of child `idx + 1` up into the parent and the parent's
    /// separator down to the end of child `idx`.
    fn borrow_from_next(t: usize, node: &mut BTreeNode<V>, idx: usize, Ghost(h): Ghost<nat>)
        requires
            shaped(*old(node), h),
            h >= 1,
            sorted(flat(*old(node))),
            within(*old(node), t as int),
            idx < old(node).keys.len(),
            old(node).children@[idx + 1].keys.len() >= t,
            old(node).children@[idx as int].keys.len() == t - 1,
            2 <= t,
            2 * t <= usize::MAX,
        ensures
            shaped(*final(node), h),
            within(*final(node), t as int),
            flat(*final(node)) == flat(*old(node)),
            final(node).keys.len() == old(node).keys.len(),
            final(node).children@[idx as int].keys.len() == t,
            forall|j: int| 0 <= j < final(node).keys.len() && j != idx ==> final(node).keys@[j] == old(node).keys@[j],
            final(node).keys@[idx as int] > old(node).keys@[idx as int],
    {
        let ghost p0 = *node;
        let ghost c0 = p0.children@[idx as int];
        let ghost s0 = p0.children@[idx + 1];
        proof {
            assert(shaped(s0, (h - 1) as nat) && filled(s0, t as int));
            assert(shaped(c0, (h - 1) as nat));
        }
        let mut child = node.children.remove(idx);
        let mut sibling = node.children.remove(idx);
        let sk = sibling.keys.remove(0);
        let mut sv = sibling.vals.remove(0);
        let moved = if sibling.leaf {
            None
        } else {
            Some(sibling.children.remove(0))
        };
        let sep_k = node.keys[idx];
        node.keys.set(idx, sk);
        node.vals.set_and_swap(idx, &mut sv);
        child.keys.push(sep_k);
        child.vals.push(sv);
        match moved {
            Some(c) => {
                child.children.push(c);
            },
            None => {},
        }
        let ghost s1 = sibling;
        let ghost c1 = child;
        node.children.insert(idx, child);
        node.children.insert(idx + 1, sibling);
        proof {
            assert(s1.keys@ =~= s0.keys@.subrange(1, s0.keys.len() as int));
            assert(s1.vals@ =~= s0.vals@.subrange(1, s0.vals.len() as int));
            if !s0.leaf {
                assert(s1.children@ =~= s0.children@.subrange(1, s0.children.len() as int));
            }
            assert(node.children@ =~= p0.children@.update(idx as int, c1).update(idx + 1, s1));
            assert(node.keys@ =~= p0.keys@.update(idx as int, s0.keys@[0]));
            assert(node.vals@ =~= p0.vals@.update(idx as int, s0.vals@[0]));
            lemma_borrow_next(p0, *node, idx as int, c1, s1, h, t as int);
        }
    }

    /// Merges child `idx + 1` and the separator between them into child `idx`.
    fn merge(t: usize, node: &mut BTreeNode<V>, idx: usize, Ghost(h): Ghost<nat>)
        requires
            shaped(*old(node), h),
            h >= 1,
            sorted(flat(*old(node))),
            within(*old(node), t as int),
            idx < old(node).keys.len(),
            old(node).children@[idx as int].keys.len() == t - 1,
            old(node).children@[idx + 1].keys.len() == t - 1,
            2 <= t,
            2 * t <= usize::MAX,
        ensures
            shaped(*final(node), h),
            within(*final(node), t as int),
            flat(*final(node)) == flat(*old(node)),
            final(node).keys@ == old(node).keys@.remove(idx as int),
            final(node).children@[idx as int].keys.len() == 2 * t - 1,
    {
        let ghost p0 = *node;
        let sep_k = node.keys.remove(idx);
        let sep_v = node.vals.remove(idx);
        let right = node.children.remove(idx + 1);
        let mut left = node.children.remove(idx);
        let BTreeNode { keys: mut rk, vals: mut rv, children: mut rc, leaf: _ } = right;
        left.keys.push(sep_k);
        left.vals.push(sep_v);
        left.keys.append(&mut rk);
        left.vals.append(&mut rv);
        left.children.append(&mut rc);
        let ghost c = left;
        node.children.insert(idx, left);
        proof {
            assert(node.children@ =~= p0.children@.remove(idx + 1).update(idx as int, c));
            lemma_merge(p0, *node, idx as int, c, h, t as int);
        }
    }

    /// Makes sure child `idx` has at least `t` keys, borrowing from a sibling or
    /// merging with one; returns the index of the child that now covers its keys.
    fn fill(t: usize, node: &mut BTreeNode<V>, idx: usize, Ghost(h): Ghost<nat>) -> (r: usize)
        requires
            shaped(*old(node), h),
            h >= 1,
            sorted(flat(*old(node))),
            within(*old(node), t as int),
            1 <= old(node).keys.len(),
            idx <= old(node).keys.len(),
            old(node).children@[idx as int].keys.len() < t,
            2 <= t,
            2 * t <= usize::MAX,
        ensures
            shaped(*final(node), h),
            sorted(flat(*final(node))),
            within(*final(node), t as int),
            flat(*final(node)) == flat(*old(node)),
            r <= idx,
            r <= final(node).keys.len(),
            final(node).keys.len() + 1 >= old(node).keys.len(),
            final(node).children@[r as int].keys.len() >= t,
            idx == old(node).keys.len() ==> r == final(node).keys.len(),
            r > 0 ==> idx > 0 && final(node).keys@[r - 1] <= old(node).keys@[idx - 1],
            r < final(node).keys.len() ==> idx < old(node).keys.len() && final(node).keys@[r as int] >= old(node).keys@[idx as int],
    {
        let ghost p0 = *node;
        proof {
            assert(filled(p0.children@[idx as int], t as int));
            if idx > 0 {
                assert(filled(p0.children@[idx - 1], t as int));
            }
            if idx < p0.keys.len() {
                assert(filled(p0.children@[idx + 1], t as int));
            }
        }
        if idx > 0 && node.children[idx - 1].keys.len() >= t {
            Self::borrow_from_prev(t, node, idx, Ghost(h));
            idx
        } else if idx < node.keys.len() && node.children[idx + 1].keys.len() >= t {
            Self::borrow_from_next(t, node, idx, Ghost(h));
            idx
        } else if idx < node.keys.len() {
            Self::merge(t, node, idx, Ghost(h));
            proof {
                if idx + 1 < p0.keys.len() {
                    lemma_keys_increase(p0, idx as int);
                }
            }
            idx
        } else {
            Self::merge(t, node, idx - 1, Ghost(h));
            proof {
                if idx >= 2 {
                    lemma_keys_increase(p0, idx - 2);
                }
            }
            idx - 1
        }
    }

    /// Removes the largest entry of a subtree with at least `t` keys and hands it back.
    fn get_predecessor(t: usize, node: &mut BTreeNode<V>, Ghost(h): Ghost<nat>) -> (r: (u64, V))
        requires
            shaped(*old(node), h),
            sorted(flat(*old(node))),
            within(*old(node), t as int),
            old(node).keys.len() >= t,
            2 <= t,
            2 * t <= usize::MAX,
        ensures
            shaped(*final(node), h),
            sorted(flat(*final(node))),
            within(*final(node), t as int),
            final(node).keys.len() + 1 >= old(node).keys.len(),
            entries_map(flat(*old(node))).contains_key(r.0),
            entries_map(flat(*old(node)))[r.0] == r.1,
            entries_map(flat(*final(node))) == entries_map(flat(*old(node))).remove(r.0),
            forall|k: u64| #[trigger] entries_map(flat(*old(node))).contains_key(k) ==> k <= r.0,
        decreases h,
    {
        let ghost n0 = *node;
        if node.leaf {
            let k = node.keys.pop().unwrap();
            let v = node.vals.pop().unwrap();
            proof {
                let f = flat(n0);
                assert(flat(*node) =~= f.remove(f.len() - 1));
                lemma_seq_remove(f, f.len() - 1);
                lemma_entry_found(f, f.len() - 1);
                lemma_sorted_bounds(f);
                assert forall|k2: u64| #[trigger] entries_map(f).contains_key(k2) implies k2 <= k by {
                    let j = choose|j: int| 0 <= j < f.len() && #[trigger] f[j].0 == k2;
                }
            }
            return (k, v);
        }
        let m = node.keys.len();
        let mut idx = m;
        if node.children[m].keys.len() < t {
            idx = Self::fill(t, node, m, Ghost(h));
        }
        let ghost n1 = *node;
        proof {
            assert(shaped(n1.children@[idx as int], (h - 1) as nat));
            assert(filled(n1.children@[idx as int], t as int));
            lemma_decompose(n1, idx as int);
            lemma_three(below(n1, idx as int), mid(n1, idx as int), above(n1, idx as int));
        }
        let mut child = node.children.remove(idx);
        let r = Self::get_predecessor(t, &mut child, Ghost((h - 1) as nat));
        node.children.insert(idx, child);
        proof {
            let b = below(n1, idx as int);
            let c = mid(n1, idx as int);
            let j = choose|j: int| 0 <= j < c.len() && #[trigger] c[j].0 == r.0;
            assert(has_key(c, r.0));
            if idx > 0 {
                assert(b[b.len() - 1].0 < c[j].0);
            }
            assert(node.children@ =~= n1.children@.update(idx as int, child));
            lemma_child_replace(n1, *node, idx as int, child, r.0);
            lemma_children_update(n1, *node, idx as int, h, t as int);
            assert(above(n1, idx as int).len() == 0);
            lemma_map_empty(above(n1, idx as int));
            assert forall|k: u64| #[trigger] entries_map(flat(n1)).contains_key(k) implies k <= r.0 by {
                if entries_map(b).contains_key(k) {
                    let i = choose|i: int| 0 <= i < b.len() && #[trigger] b[i].0 == k;
                    assert(b[i].0 < c[j].0);
                }
            }
            assert(entries_map(flat(*node)) =~= entries_map(flat(n1)).remove(r.0));
        }
        r
    }

    /// Removes the smallest entry of a subtree with at least `t` keys and hands it back.
    fn get_successor(t: usize, node: &mut BTreeNode<V>, Ghost(h): Ghost<nat>) -> (r: (u64, V))
        requires
            shaped(*old(node), h),
            sorted(flat(*old(node))),
            within(*old(node), t as int),
            old(node).keys.len() >= t,
            2 <= t,
            2 * t <= usize::MAX,
        ensures
            shaped(*final(node), h),
            sorted(flat(*final(node))),
            within(*final(node), t as int),
            final(node).keys.len() + 1 >= old(node).keys.len(),
            entries_map(flat(*old(node))).contains_key(r.0),
            entries_map(flat(*old(node)))[r.0] == r.1,
            entries_map(flat(*final(node))) == entries_map(flat(*old(node))).remove(r.0),
            forall|k: u64| #[trigger] entries_map(flat(*old(node))).contains_key(k) ==> r.0 <= k,
        decreases h,
    {
        let ghost n0 = *node;
        if node.leaf {
            let k = node.keys.remove(0);
            let v = node.vals.remove(0);
            proof {
                let f = flat(n0);
                assert(flat(*node) =~= f.remove(0));
                lemma_seq_remove(f, 0);
                lemma_entry_found(f, 0);
                lemma_sorted_bounds(f);
                assert forall|k2: u64| #[trigger] entries_map(f).contains_key(k2) implies k <= k2 by {
                    let j = choose|j: int| 0 <= j < f.len() && #[trigger] f[j].0 == k2;
                }
            }
            return (k, v);
        }
        let mut idx: usize = 0;
        if node.children[0].keys.len() < t {
            idx = Self::fill(t, node, 0, Ghost(h));
        }
        let ghost n1 = *node;
        proof {
            assert(shaped(n1.children@[idx as int], (h - 1) as nat));
            assert(filled(n1.children@[idx as int], t as int));
            lemma_decompose(n1, idx as int);
            lemma_three(below(n1, idx as int), mid(n1, idx as int), above(n1, idx as int));
        }
        let mut child = node.children.remove(idx);
        let r = Self::get_successor(t, &mut child, Ghost((h - 1) as nat));
        node.children.insert(idx, child);
        proof {
            let a = above(n1, idx as int);
            let c = mid(n1, idx as int);
            let j = choose|j: int| 0 <= j < c.len() && #[trigger] c[j].0 == r.0;
            assert(has_key(c, r.0));
            if n1.keys.len() > 0 {
                assert(c[j].0 < a[0].0);
            }
            assert(node.children@ =~= n1.children@.update(idx as int, child));
            lemma_child_replace(n1, *node, idx as int, child, r.0);
            lemma_children_update(n1, *node, idx as int, h, t as int);
            assert(below(n1, idx as int).len() == 0);
            lemma_map_empty(below(n1, idx as int));
            assert forall|k: u64| #[trigger] entries_map(flat(n1)).contains_key(k) implies r.0 <= k by {
                if entries_map(a).contains_key(k) {
                    let i = choose|i: int| 0 <= i < a.len() && #[trigger] a[i].0 == k;
                    assert(c[j].0 < a[i].0);
                }
            }
            assert(entries_map(flat(*node)) =~= entries_map(flat(n1)).remove(r.0));
        }
        r
    }

    fn delete_node(t: usize, node: &mut BTreeNode<V>, key: &u64, Ghost(h): Ghost<nat>)
        requires
            shaped(*old(node), h),
            sorted(flat(*old(node))),
            within(*old(node), t as int),
            !old(node).leaf ==> old(node).keys.len() >= 1,
            2 <= t,
            2 * t <= usize::MAX,
        ensures
            shaped(*final(node), h),
            sorted(flat(*final(node))),
            within(*final(node), t as int),
            final(node).keys.len() + 1 >= old(node).keys.len(),
            entries_map(flat(*final(node))) == entries_map(flat(*old(node))).remove(*key),
        decreases h, 1nat,
    {
        let ghost n0 = *node;
        let mut idx: usize = 0;
        while idx < node.keys.len() && node.keys[idx] < *key
            invariant
                n0 == *node,
                local(*node),
                0 <= idx <= node.keys.len(),
                forall|j: int| 0 <= j < idx ==> node.keys@[j] < *key,
            decreases node.keys.len() - idx,
        {
            idx += 1;
        }
        if idx < node.keys.len() && node.keys[idx] == *key {
            if node.leaf {
                node.keys.remove(idx);
                node.vals.remove(idx);
                proof {
                    let f = flat(n0);
                    assert(flat(*node) =~= f.remove(idx as int));
                    lemma_seq_remove(f, idx as int);
                }
            } else if node.children[idx].keys.len() >= t {
                proof {
                    assert(shaped(n0.children@[idx as int], (h - 1) as nat));
                    assert(filled(n0.children@[idx as int], t as int));
                    lemma_decompose(n0, idx as int);
                    lemma_three(below(n0, idx as int), mid(n0, idx as int), above(n0, idx as int));
                }
                let mut child = node.children.remove(idx);
                let (pk, pv) = Self::get_predecessor(t, &mut child, Ghost((h - 1) as nat));
                node.children.insert(idx, child);
                node.keys.set(idx, pk);
                node.vals.set(idx, pv);
                proof {
                    let c1 = n0.children@[idx + 1];
                    assert(node.children@ =~= n0.children@.update(idx as int, child).update(idx + 1, c1));
                    lemma_pair_replace(n0, *node, idx as int, child, pk, pv, c1);
                    let b = below(n0, idx as int);
                    let q = flat(c1) + above(n0, idx + 1);
                    let e = (n0.keys@[idx as int], n0.vals@[idx as int]);
                    assert(flat(n0) =~= b + flat(n0.children@[idx as int]) + seq![e] + q);
                    assert(flat(*node) =~= b + flat(child) + seq![(pk, pv)] + q);
                    lemma_swap_pred(b, flat(n0.children@[idx as int]), e, q, flat(child), (pk, pv));
                    assert(node.children@ =~= n0.children@.update(idx as int, node.children@[idx as int]));
                    lemma_children_update(n0, *node, idx as int, h, t as int);
                }
            } else if node.children[idx + 1].keys.len() >= t {
                proof {
                    assert(shaped(n0.children@[idx + 1], (h - 1) as nat));
                    assert(filled(n0.children@[idx + 1], t as int));
                    lemma_pair(n0, idx as int);
                    let p = below(n0, idx as int) + flat(n0.children@[idx as int]) + seq![(n0.keys@[idx as int], n0.vals@[idx as int])];
                    assert(flat(n0) =~= p + flat(n0.children@[idx + 1]) + above(n0, idx + 1));
                    lemma_three(p, flat(n0.children@[idx + 1]), above(n0, idx + 1));
                }
                let mut child = node.children.remove(idx + 1);
                let (sk, sv) = Self::get_successor(t, &mut child, Ghost((h - 1) as nat));
                node.children.insert(idx + 1, child);
                node.keys.set(idx, sk);
                node.vals.set(idx, sv);
                proof {
                    let c0 = n0.children@[idx as int];
                    assert(node.children@ =~= n0.children@.update(idx as int, c0).update(idx + 1, child));
                    lemma_pair_replace(n0, *node, idx as int, c0, sk, sv, child);
                    let p = below(n0, idx as int) + flat(c0);
                    let q = above(n0, idx + 1);
                    let e = (n0.keys@[idx as int], n0.vals@[idx as int]);
                    assert(flat(n0) =~= p + seq![e] + flat(n0.children@[idx + 1]) + q);
                    assert(flat(*node) =~= p + seq![(sk, sv)] + flat(child) + q);
                    lemma_swap_succ(p, e, flat(n0.children@[idx + 1]), q, flat(child), (sk, sv));
                    assert(node.children@ =~= n0.children@.update(idx + 1, node.children@[idx + 1]));
                    lemma_children_update(n0, *node, idx + 1, h, t as int);
                }
            } else {
                proof {
                    assert(filled(n0.children@[idx as int], t as int));
                    assert(filled(n0.children@[idx + 1], t as int));
                    if idx + 1 < n0.keys.len() {
                        lemma_keys_increase(n0, idx as int);
                    }
                }
                Self::merge(t, node, idx, Ghost(h));
                Self::delete_in_child(t, node, idx, key, Ghost(h));
            }
        } else if !node.leaf {
            let mut i = idx;
            if node.children[idx].keys.len() < t {
                i = Self::fill(t, node, idx, Ghost(h));
            }
            proof {
                assert(filled(node.children@[i as int], t as int));
            }
            Self::delete_in_child(t, node, i, key, Ghost(h));
        } else {
            proof {
                lemma_decompose(n0, idx as int);
                lemma_three(below(n0, idx as int), mid(n0, idx as int), above(n0, idx as int));
                if idx > 0 {
                    lemma_sorted_bounds(below(n0, idx as int));
                }
                if idx < n0.keys.len() {
                    lemma_sorted_bounds(above(n0, idx as int));
                }
                lemma_absent_below(below(n0, idx as int), *key);
                lemma_absent_above(above(n0, idx as int), *key);
                lemma_map_empty(mid(n0, idx as int));
                assert(entries_map(flat(n0)).remove(*key) =~= entries_map(flat(n0)));
            }
        }
    }

    /// Deletes `key` from child `i`, which has at least `t` keys and whose key range holds `key`.
    fn delete_in_child(t: usize, node: &mut BTreeNode<V>, i: usize, key: &u64, Ghost(h): Ghost<nat>)
        requires
            shaped(*old(node), h),
            !old(node).leaf,
            sorted(flat(*old(node))),
            within(*old(node), t as int),
            i <= old(node).keys.len(),
            i > 0 ==> old(node).keys@[i - 1] < *key,
            i < old(node).keys.len() ==> *key < old(node).keys@[i as int],
            old(node).children@[i as int].keys.len() >= t,
            2 <= t,
            2 * t <= usize::MAX,
        ensures
            shaped(*final(node), h),
            sorted(flat(*final(node))),
            within(*final(node), t as int),
            final(node).keys@ == old(node).keys@,
            entries_map(flat(*final(node))) == entries_map(flat(*old(node))).remove(*key),
        decreases h, 0nat,
    {
        let ghost n1 = *node;
        proof {
            assert(shaped(n1.children@[i as int], (h - 1) as nat));
            assert(filled(n1.children@[i as int], t as int));
            lemma_decompose(n1, i as int);
            lemma_three(below(n1, i as int), mid(n1, i as int), above(n1, i as int));
        }
        let mut child = node.children.remove(i);
        Self::delete_node(t, &mut child, key, Ghost((h - 1) as nat));
        node.children.insert(i, child);
        proof {
            assert(node.children@ =~= n1.children@.update(i as int, child));
            lemma_child_replace(n1, *node, i as int, child, *key);
            lemma_children_update(n1, *node, i as int, h, t as int);
            assert(entries_map(flat(*node)) =~= entries_map(flat(n1)).remove(*key));
        }
    }

    /// Removes `key`; an absent key leaves the map as it was.
    pub fn delete(&mut self, key: &u64)
        requires
            old(self).wf(),
        ensures
            final(self).wf(),
            final(self)@ == old(self)@.remove(*key),
            !old(self)@.contains_key(*key) ==> final(self)@ == old(self)@,
            final(self).degree() == old(self).degree(),
            !final(self).root_node().leaf ==> final(self).root_node().keys.len() >= 1,
    {
        let t = self.min_degree;
        Self::delete_node(t, &mut self.root, key, Ghost(self.height@));
        if self.root.keys.len() == 0 && !self.root.leaf {
            let ghost r0 = self.root;
            let child = self.root.children.pop().unwrap();
            proof {
                assert(child == r0.children@[0]);
                assert(shaped(child, (self.height@ - 1) as nat));
                assert(filled(child, t as int));
                lemma_inner_single(r0.keys@, r0.vals@, r0.children@);
                assert(forall|i: int| 0 <= i < child.children.len() ==> filled(#[trigger] child.children@[i], t as int));
            }
            self.root = child;
            self.height = Ghost((self.height@ - 1) as nat);
        }
        proof {
            if !old(self)@.contains_key(*key) {
                assert(old(self)@.remove(*key) =~= old(self)@);
            }
        }
    }

    /// The values of the keys in `[start, end]`, in ascending key order.
    pub fn range_query(&self, start: &u64, end: &u64) -> (r: Vec<&V>)
        requires
            self.wf(),
        ensures
            r@.map_values(|v: &V| *v) == values_in_range(self@, *start as int, *end as int),
    {
        let mut result: Vec<&V> = Vec::new();
        self.range_query_node(&self.root, start, end, &mut result, Ghost(self.height@));
        proof {
            lemma_range_filter_map(flat(self.root), *start as int, *end as int);
        }
        assert(result@.map_values(|v: &V| *v) =~= Seq::<V>::empty() + range_filter(flat(self.root), *start as int, *end as int));
        result
    }

    fn range_query_node<'a>(
        &'a self,
        node: &'a BTreeNode<V>,
        start: &u64,
        end: &u64,
        output: &mut Vec<&'a V>,
        Ghost(h): Ghost<nat>,
    )
        requires
            shaped(*node, h),
            sorted(flat(*node)),
        ensures
            final(output)@.map_values(|v: &V| *v) == old(output)@.map_values(|v: &V| *v) + range_filter(
                flat(*node),
                *start as int,
                *end as int,
            ),
        decreases *node,
    {
        let ghost n = *node;
        let ghost lo = *start as int;
        let ghost hi = *end as int;
        let ghost out0 = output@.map_values(|v: &V| *v);
        let mut i: usize = 0;
        while i < node.keys.len() && node.keys[i] < *start
            invariant
                local(*node),
                0 <= i <= node.keys.len(),
                i > 0 ==> node.keys@[i - 1] < *start,
            decreases node.keys.len() - i,
        {
            i += 1;
        }
        proof {
            lemma_range_head(n, i as int, lo, hi);
            assert(output@.map_values(|v: &V| *v) =~= out0 + range_filter(below(n, i as int), lo, hi));
        }
        let ghost i0 = i;
        while i < node.keys.len() && node.keys[i] <= *end
            invariant
                shaped(*node, h),
                sorted(flat(*node)),
                n == *node,
                lo == *start as int,
                hi == *end as int,
                i0 <= i <= node.keys.len(),
                i0 < node.keys.len() ==> node.keys@[i0 as int] >= *start,
                i > i0 ==> node.keys@[i - 1] >= *start,
                output@.map_values(|v: &V| *v) == out0 + range_filter(below(n, i as int), lo, hi),
            decreases node.keys.len() - i,
        {
            proof {
                lemma_range_step(n, i as int, lo, hi);
            }
            let ghost before = output@.map_values(|v: &V| *v);
            if !node.leaf {
                self.range_query_node(&node.children[i], start, end, output, Ghost((h - 1) as nat));
                assert(output@.map_values(|v: &V| *v) =~= before + range_filter(mid(n, i as int), lo, hi));
            } else {
                assert(range_filter(mid(n, i as int), lo, hi) =~= Seq::<V>::empty());
                assert(output@.map_values(|v: &V| *v) =~= before + range_filter(mid(n, i as int), lo, hi));
            }
            let ghost after = output@;
            assert(after.map_values(|v: &V| *v) =~= before + range_filter(mid(n, i as int), lo, hi));
            output.push(&node.vals[i]);
            assert(output@ == after.push(&node.vals@[i as int]));
            assert(output@.map_values(|v: &V| *v) =~= before + range_filter(mid(n, i as int), lo, hi) + seq![node.vals@[i as int]]);
            i += 1;
        }
        proof {
            lemma_range_tail(n, i as int, lo, hi);
        }
        let ghost before = output@.map_values(|v: &V| *v);
        if !node.leaf {
            self.range_query_node(&node.children[i], start, end, output, Ghost((h - 1) as nat));
        } else {
            assert(range_filter(mid(n, i as int), lo, hi) =~= Seq::<V>::empty());
        }
        assert(output@.map_values(|v: &V| *v) =~= before + range_filter(mid(n, i as int), lo, hi));
    }
}

/// Keys before `i` are all below `low`: they add nothing to a range.
proof fn lemma_range_head<V>(n: BTreeNode<V>, i: int, low: int, high: int)
    requires
        local(n),
        sorted(flat(n)),
        0 <= i <= n.keys.len(),
        i > 0 ==> n.keys@[i - 1] < low,
    ensures
        range_filter(below(n, i), low, high) == Seq::<V>::empty(),
{
    lemma_decompose(n, i);
    lemma_three(below(n, i), mid(n, i), above(n, i));
    if i > 0 {
        lemma_sorted_bounds(below(n, i));
    }
    lemma_range_filter_none(below(n, i), low, high);
}

/// One step of a range scan over a node: child `i`, then key `i`.
proof fn lemma_range_step<V>(n: BTreeNode<V>, i: int, low: int, high: int)
    requires
        local(n),
        sorted(flat(n)),
        0 <= i < n.keys.len(),
    ensures
        sorted(mid(n, i)),
                i > 0 ==> n.keys@[i - 1] < n.keys@[i],
        low <= n.keys@[i] <= high ==> range_filter(below(n, i + 1), low, high) == range_filter(below(n, i), low, high)
            + range_filter(mid(n, i), low, high) + seq![n.vals@[i]],
{
    lemma_decompose(n, i);
    lemma_three(below(n, i), mid(n, i), above(n, i));
    if i > 0 {
        assert(below(n, i)[below(n, i).len() - 1].0 < above(n, i)[0].0);
    }
    let e = seq![(n.keys@[i], n.vals@[i])];
    lemma_range_filter_concat(below(n, i), mid(n, i), low, high);
    lemma_range_filter_concat(below(n, i) + mid(n, i), e, low, high);
    lemma_range_filter_single(n.keys@[i], n.vals@[i], low, high);
}

/// Keys from `i` on are all above `high`: only child `i` is left to scan.
proof fn lemma_range_tail<V>(n: BTreeNode<V>, i: int, low: int, high: int)
    requires
        local(n),
        sorted(flat(n)),
        0 <= i <= n.keys.len(),
        i < n.keys.len() ==> n.keys@[i] > high,
    ensures
        sorted(mid(n, i)),
                range_filter(flat(n), low, high) == range_filter(below(n, i), low, high) + range_filter(mid(n, i), low, high),
{
    lemma_decompose(n, i);
    lemma_three(below(n, i), mid(n, i), above(n, i));
    lemma_range_filter_concat(below(n, i), mid(n, i), low, high);
    lemma_range_filter_concat(below(n, i) + mid(n, i), above(n, i), low, high);
    if i < n.keys.len() {
        lemma_sorted_bounds(above(n, i));
    }
    lemma_range_filter_none(above(n, i), low, high);
}

} // verus!
