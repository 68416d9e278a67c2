//! Sequences of key/value entries in ascending key order, the common model
//! of the two multiway trees.
use vstd::prelude::*;
use crate::range_model::{values_in_range, lemma_range_union, lemma_range_single};

verus! {

/// Keys strictly increase along `s`.
pub open spec fn sorted<V>(s: Seq<(u64, V)>) -> bool {
    forall|i: int, j: int| 0 <= i < j < s.len() ==> #[trigger] s[i].0 < #[trigger] s[j].0
}

/// Every key of `a` is below every key of `b`.
pub open spec fn precedes<V>(a: Seq<(u64, V)>, b: Seq<(u64, V)>) -> bool {
    forall|i: int, j: int| 0 <= i < a.len() && 0 <= j < b.len() ==> #[trigger] a[i].0 < #[trigger] b[j].0
}

pub open spec fn has_key<V>(s: Seq<(u64, V)>, k: u64) -> bool {
    exists|j: int| 0 <= j < s.len() && #[trigger] s[j].0 == k
}

/// The map that a sequence of entries describes.
pub open spec fn entries_map<V>(s: Seq<(u64, V)>) -> Map<u64, V> {
    Map::new(
        |k: u64| has_key(s, k),
        |k: u64| s[choose|j: int| 0 <= j < s.len() && #[trigger] s[j].0 == k].1,
    )
}

/// The values of the entries whose key lies in `[low, high]`, in sequence order.
pub open spec fn range_filter<V>(s: Seq<(u64, V)>, low: int, high: int) -> Seq<V>
    decreases s.len(),
{
    if s.len() == 0 {
        Seq::empty()
    } else {
        range_filter(s.drop_last(), low, high) + (if low <= s.last().0 <= high {
            seq![s.last().1]
        } else {
            Seq::<V>::empty()
        })
    }
}

/// A concatenation is sorted when both parts are and the first precedes the second.
pub proof fn lemma_sorted_concat<V>(a: Seq<(u64, V)>, b: Seq<(u64, V)>)
    ensures
        sorted(a + b) == (sorted(a) && sorted(b) && precedes(a, b)),
{
    let s = a + b;
    if sorted(s) {
        assert forall|i: int, j: int| 0 <= i < j < a.len() implies #[trigger] a[i].0 < #[trigger] a[j].0 by {
            assert(s[i] == a[i] && s[j] == a[j]);
        }
        assert forall|i: int, j: int| 0 <= i < j < b.len() implies #[trigger] b[i].0 < #[trigger] b[j].0 by {
            assert(s[a.len() + i] == b[i] && s[a.len() + j] == b[j]);
        }
        assert forall|i: int, j: int| 0 <= i < a.len() && 0 <= j < b.len() implies #[trigger] a[i].0 < #[trigger] b[j].0 by {
            assert(s[i] == a[i] && s[a.len() + j] == b[j]);
        }
    }
    if sorted(a) && sorted(b) && precedes(a, b) {
        assert forall|i: int, j: int| 0 <= i < j < s.len() implies #[trigger] s[i].0 < #[trigger] s[j].0 by {
            if j < a.len() {
                assert(s[i] == a[i] && s[j] == a[j]);
            } else if i < a.len() {
                assert(s[i] == a[i] && s[j] == b[j - a.len()]);
            } else {
                assert(s[i] == b[i - a.len()] && s[j] == b[j - a.len()]);
            }
        }
    }
}

/// In a sorted sequence the entry at `j` is what the map holds for its key.
pub proof fn lemma_entry_found<V>(s: Seq<(u64, V)>, j: int)
    requires
        sorted(s),
        0 <= j < s.len(),
    ensures
        entries_map(s).contains_key(s[j].0),
        entries_map(s)[s[j].0] == s[j].1,
{
    let k = s[j].0;
    assert(has_key(s, k));
    let c = choose|i: int| 0 <= i < s.len() && #[trigger] s[i].0 == k;
    if c < j {
        assert(s[c].0 < s[j].0);
    } else if c > j {
        assert(s[j].0 < s[c].0);
    }
}

/// The map of a sorted concatenation is the union of the two maps.
pub proof fn lemma_map_concat<V>(a: Seq<(u64, V)>, b: Seq<(u64, V)>)
    requires
        sorted(a + b),
    ensures
        entries_map(a + b) == entries_map(a).union_prefer_right(entries_map(b)),
{
    let s = a + b;
    lemma_sorted_concat(a, b);
    assert forall|k: u64| #[trigger] entries_map(s).contains_key(k) == entries_map(a).union_prefer_right(entries_map(b)).contains_key(k) by {
        if has_key(s, k) {
            let j = choose|j: int| 0 <= j < s.len() && #[trigger] s[j].0 == k;
            if j < a.len() {
                assert(a[j].0 == k);
            } else {
                assert(b[j - a.len()].0 == k);
            }
        }
        if has_key(a, k) {
            let j = choose|j: int| 0 <= j < a.len() && #[trigger] a[j].0 == k;
            assert(s[j].0 == k);
        }
        if has_key(b, k) {
            let j = choose|j: int| 0 <= j < b.len() && #[trigger] b[j].0 == k;
            assert(s[a.len() + j].0 == k);
        }
    }
    assert forall|k: u64| #[trigger] entries_map(s).contains_key(k) implies entries_map(s)[k] == entries_map(a).union_prefer_right(entries_map(b))[k] by {
        let j = choose|j: int| 0 <= j < s.len() && #[trigger] s[j].0 == k;
        lemma_entry_found(s, j);
        if j < a.len() {
            assert(s[j] == a[j]);
            lemma_entry_found(a, j);
            if has_key(b, k) {
                let i = choose|i: int| 0 <= i < b.len() && #[trigger] b[i].0 == k;
                assert(a[j].0 < b[i].0);
            }
        } else {
            assert(s[j] == b[j - a.len()]);
            lemma_entry_found(b, j - a.len());
        }
    }
    assert(entries_map(s) =~= entries_map(a).union_prefer_right(entries_map(b)));
}

/// The map of a single entry.
pub proof fn lemma_map_single<V>(k: u64, v: V)
    ensures
        entries_map(seq![(k, v)]) == map![k => v],
{
    let s = seq![(k, v)];
    lemma_entry_found(s, 0);
    assert(entries_map(s) =~= map![k => v]);
}

/// No entries, no keys.
pub proof fn lemma_map_empty<V>(s: Seq<(u64, V)>)
    requires
        s.len() == 0,
    ensures
        entries_map(s) == Map::<u64, V>::empty(),
{
    assert(entries_map(s) =~= Map::<u64, V>::empty());
}

/// The keys of `s` are those in the domain of its map.
pub proof fn lemma_has_key<V>(s: Seq<(u64, V)>, j: int)
    requires
        0 <= j < s.len(),
    ensures
        entries_map(s).contains_key(s[j].0),
{
    assert(has_key(s, s[j].0));
}

/// Filtering a concatenation filters each part.
pub proof fn lemma_range_filter_concat<V>(a: Seq<(u64, V)>, b: Seq<(u64, V)>, low: int, high: int)
    ensures
        range_filter(a + b, low, high) == range_filter(a, low, high) + range_filter(b, low, high),
    decreases b.len(),
{
    if b.len() == 0 {
        assert(a + b =~= a);
        assert(range_filter(b, low, high) =~= Seq::<V>::empty());
        assert(range_filter(a, low, high) + range_filter(b, low, high) =~= range_filter(a, low, high));
    } else {
        lemma_range_filter_concat(a, b.drop_last(), low, high);
        assert((a + b).drop_last() =~= a + b.drop_last());
        assert((a + b).last() == b.last());
        assert(range_filter(a + b, low, high) =~= range_filter(a, low, high) + range_filter(b, low, high));
    }
}

/// The filter of a single entry.
pub proof fn lemma_range_filter_single<V>(k: u64, v: V, low: int, high: int)
    ensures
        range_filter(seq![(k, v)], low, high) == (if low <= k <= high {
            seq![v]
        } else {
            Seq::<V>::empty()
        }),
{
    let e = seq![(k, v)];
    assert(e.drop_last().len() == 0);
    assert(range_filter(e.drop_last(), low, high) == Seq::<V>::empty());
    assert(e.last() == (k, v));
    assert(range_filter(e, low, high) =~= (if low <= k <= high {
        seq![v]
    } else {
        Seq::<V>::empty()
    }));
}

/// Entries outside `[low, high]` contribute nothing.
pub proof fn lemma_range_filter_none<V>(s: Seq<(u64, V)>, low: int, high: int)
    requires
        forall|j: int| 0 <= j < s.len() ==> !(low <= #[trigger] s[j].0 <= high),
    ensures
        range_filter(s, low, high) == Seq::<V>::empty(),
    decreases s.len(),
{
    if s.len() > 0 {
        lemma_range_filter_none(s.drop_last(), low, high);
        assert(!(low <= s[s.len() - 1].0 <= high));
    }
}

/// On a sorted sequence the filter is the range of its map.
pub proof fn lemma_range_filter_map<V>(s: Seq<(u64, V)>, low: int, high: int)
    requires
        sorted(s),
    ensures
        range_filter(s, low, high) == values_in_range(entries_map(s), low, high),
    decreases s.len(),
{
    if s.len() == 0 {
        lemma_map_empty(s);
        crate::range_model::lemma_range_none(entries_map(s), low, high);
    } else {
        let a = s.drop_last();
        let e = seq![s.last()];
        assert(s =~= a + e);
        lemma_sorted_concat(a, e);
        lemma_range_filter_map(a, low, high);
        lemma_map_concat(a, e);
        lemma_map_single(s.last().0, s.last().1);
        assert forall|k: u64| entries_map(a).contains_key(k) implies k < s.last().0 by {
            let j = choose|j: int| 0 <= j < a.len() && #[trigger] a[j].0 == k;
            assert(a[j].0 < e[0].0);
        }
        lemma_range_union(entries_map(a), map![s.last().0 => s.last().1], s.last().0 as int, low, high);
        lemma_range_single(s.last().0, s.last().1, low, high);
    }
}


/// A new entry placed between its neighbours keeps the sequence sorted and adds to the map.
pub proof fn lemma_seq_insert<V>(s: Seq<(u64, V)>, i: int, k: u64, v: V)
    requires
        sorted(s),
        0 <= i <= s.len(),
        i > 0 ==> s[i - 1].0 < k,
        i < s.len() ==> k < s[i].0,
    ensures
        sorted(s.insert(i, (k, v))),
        entries_map(s.insert(i, (k, v))) == entries_map(s).insert(k, v),
{
    let a = s.subrange(0, i);
    let b = s.subrange(i, s.len() as int);
    let e = seq![(k, v)];
    assert(s =~= a + b);
    assert(s.insert(i, (k, v)) =~= a + e + b);
    lemma_sorted_concat(a, b);
    lemma_sorted_concat(a, e);
    assert forall|p: int, q: int| 0 <= p < (a + e).len() && 0 <= q < b.len() implies #[trigger] (a + e)[p].0 < #[trigger] b[q].0 by {
        if p < a.len() {
            assert((a + e)[p] == a[p]);
        } else {
            assert(b[0] == s[i]);
            if q > 0 {
                assert(b[0].0 < b[q].0);
            }
        }
    }
    assert forall|p: int, q: int| 0 <= p < a.len() && 0 <= q < e.len() implies #[trigger] a[p].0 < #[trigger] e[q].0 by {
        assert(a[a.len() - 1] == s[i - 1]);
        if p < a.len() - 1 {
            assert(a[p].0 < a[a.len() - 1].0);
        }
    }
    lemma_sorted_concat(a + e, b);
    lemma_map_concat(a + e, b);
    lemma_map_concat(a, e);
    lemma_map_concat(a, b);
    lemma_map_single(k, v);
    assert(!entries_map(b).contains_key(k)) by {
        if has_key(b, k) {
            let q = choose|q: int| 0 <= q < b.len() && #[trigger] b[q].0 == k;
        }
    }
    assert(entries_map(s.insert(i, (k, v))) =~= entries_map(s).insert(k, v));
}

/// A new value for the entry at `i`.
pub proof fn lemma_seq_update<V>(s: Seq<(u64, V)>, i: int, v: V)
    requires
        sorted(s),
        0 <= i < s.len(),
    ensures
        sorted(s.update(i, (s[i].0, v))),
        entries_map(s.update(i, (s[i].0, v))) == entries_map(s).insert(s[i].0, v),
{
    let k = s[i].0;
    let s2 = s.update(i, (k, v));
    assert(s2.remove(i) =~= s.remove(i));
    assert(s =~= s.remove(i).insert(i, s[i]));
    assert(s2 =~= s.remove(i).insert(i, (k, v)));
    let r = s.remove(i);
    assert(sorted(r)) by {
        assert forall|p: int, q: int| 0 <= p < q < r.len() implies #[trigger] r[p].0 < #[trigger] r[q].0 by {
            let pp = if p < i { p } else { p + 1 };
            let qq = if q < i { q } else { q + 1 };
            assert(r[p] == s[pp] && r[q] == s[qq]);
        }
    }
    if i > 0 {
        assert(r[i - 1] == s[i - 1]);
    }
    if i < r.len() {
        assert(r[i] == s[i + 1]);
    }
    lemma_seq_insert(r, i, k, v);
    lemma_seq_insert(r, i, k, s[i].1);
    assert(entries_map(s2) =~= entries_map(s).insert(k, v));
}

/// Taking out the entry at `i`.
pub proof fn lemma_seq_remove<V>(s: Seq<(u64, V)>, i: int)
    requires
        sorted(s),
        0 <= i < s.len(),
    ensures
        sorted(s.remove(i)),
        entries_map(s.remove(i)) == entries_map(s).remove(s[i].0),
{
    let k = s[i].0;
    let r = s.remove(i);
    assert(s =~= r.insert(i, s[i]));
    assert(sorted(r)) by {
        assert forall|p: int, q: int| 0 <= p < q < r.len() implies #[trigger] r[p].0 < #[trigger] r[q].0 by {
            let pp = if p < i { p } else { p + 1 };
            let qq = if q < i { q } else { q + 1 };
            assert(r[p] == s[pp] && r[q] == s[qq]);
        }
    }
    if i > 0 {
        assert(r[i - 1] == s[i - 1]);
    }
    if i < r.len() {
        assert(r[i] == s[i + 1]);
    }
    lemma_seq_insert(r, i, k, s[i].1);
    assert(!entries_map(r).contains_key(k)) by {
        if has_key(r, k) {
            let q = choose|q: int| 0 <= q < r.len() && #[trigger] r[q].0 == k;
            let qq = if q < i { q } else { q + 1 };
            assert(r[q] == s[qq]);
        }
    }
    assert(entries_map(r) =~= entries_map(s).remove(k));
}


/// Replacing a separator `e` by the largest entry `e2` of the part `x` before it,
/// which `x2` no longer holds.
pub proof fn lemma_swap_pred<V>(
    p: Seq<(u64, V)>, x: Seq<(u64, V)>, e: (u64, V), q: Seq<(u64, V)>,
    x2: Seq<(u64, V)>, e2: (u64, V),
)
    requires
        sorted(p + x + seq![e] + q),
        sorted(x2),
        entries_map(x2) == entries_map(x).remove(e2.0),
        entries_map(x).contains_key(e2.0),
        entries_map(x)[e2.0] == e2.1,
        forall|k: u64| #[trigger] entries_map(x).contains_key(k) ==> k <= e2.0,
    ensures
        sorted(p + x2 + seq![e2] + q),
        entries_map(p + x2 + seq![e2] + q) == entries_map(p + x + seq![e] + q).remove(e.0),
{
    let es = seq![e];
    let e2s = seq![e2];
    lemma_sorted_concat(p + x + es, q);
    lemma_sorted_concat(p + x, es);
    lemma_sorted_concat(p, x);
    let j2 = choose|j: int| 0 <= j < x.len() && #[trigger] x[j].0 == e2.0;
    assert(has_key(x, e2.0));
    assert forall|j: int| 0 <= j < x2.len() implies #[trigger] x2[j].0 < e2.0 && has_key(x, x2[j].0) by {
        lemma_has_key(x2, j);
        assert(entries_map(x).contains_key(x2[j].0));
    }
    assert forall|i: int, j: int| 0 <= i < p.len() && 0 <= j < x2.len() implies #[trigger] p[i].0 < #[trigger] x2[j].0 by {
        let r = choose|r: int| 0 <= r < x.len() && #[trigger] x[r].0 == x2[j].0;
        assert((p + x)[i] == p[i] && (p + x)[p.len() + r] == x[r]);
    }
    lemma_sorted_concat(p, x2);
    assert forall|i: int, j: int| 0 <= i < (p + x2).len() && 0 <= j < e2s.len() implies #[trigger] (p + x2)[i].0 < #[trigger] e2s[j].0 by {
        if i < p.len() {
            assert((p + x2)[i] == p[i]);
            assert((p + x)[i] == p[i] && (p + x)[p.len() + j2] == x[j2]);
        } else {
            assert((p + x2)[i] == x2[i - p.len()]);
        }
    }
    lemma_sorted_concat(p + x2, e2s);
    assert forall|i: int, j: int| 0 <= i < (p + x2 + e2s).len() && 0 <= j < q.len() implies #[trigger] (p + x2 + e2s)[i].0 < #[trigger] q[j].0 by {
        if i < p.len() {
            assert((p + x2 + e2s)[i] == p[i]);
            assert((p + x + es)[i] == p[i]);
        } else if i < p.len() + x2.len() {
            assert((p + x2 + e2s)[i] == x2[i - p.len()]);
            let r = choose|r: int| 0 <= r < x.len() && #[trigger] x[r].0 == x2[i - p.len()].0;
            assert((p + x + es)[p.len() + r] == x[r]);
        } else {
            assert((p + x2 + e2s)[i] == e2);
            assert((p + x + es)[p.len() + j2] == x[j2]);
        }
    }
    lemma_sorted_concat(p + x2 + e2s, q);
    lemma_map_concat(p + x + es, q);
    lemma_map_concat(p + x, es);
    lemma_map_concat(p, x);
    lemma_map_concat(p + x2 + e2s, q);
    lemma_map_concat(p + x2, e2s);
    lemma_map_concat(p, x2);
    lemma_map_single(e.0, e.1);
    lemma_map_single(e2.0, e2.1);
    assert(!entries_map(p).contains_key(e.0)) by {
        if has_key(p, e.0) {
            let r = choose|r: int| 0 <= r < p.len() && #[trigger] p[r].0 == e.0;
            assert((p + x)[r] == p[r]);
            assert((p + x)[r].0 < es[0].0);
        }
    }
    assert(!entries_map(x).contains_key(e.0)) by {
        if has_key(x, e.0) {
            let r = choose|r: int| 0 <= r < x.len() && #[trigger] x[r].0 == e.0;
            assert((p + x)[p.len() + r] == x[r]);
            assert((p + x)[p.len() + r].0 < es[0].0);
        }
    }
    assert(!entries_map(q).contains_key(e.0)) by {
        if has_key(q, e.0) {
            let r = choose|r: int| 0 <= r < q.len() && #[trigger] q[r].0 == e.0;
            assert((p + x + es)[(p.len() + x.len()) as int] == e);
        }
    }
    assert(entries_map(p + x2 + e2s + q) =~= entries_map(p + x + es + q).remove(e.0));
}

/// Replacing a separator `e` by the smallest entry `e2` of the part `y` after it,
/// which `y2` no longer holds.
pub proof fn lemma_swap_succ<V>(
    p: Seq<(u64, V)>, e: (u64, V), y: Seq<(u64, V)>, q: Seq<(u64, V)>,
    y2: Seq<(u64, V)>, e2: (u64, V),
)
    requires
        sorted(p + seq![e] + y + q),
        sorted(y2),
        entries_map(y2) == entries_map(y).remove(e2.0),
        entries_map(y).contains_key(e2.0),
        entries_map(y)[e2.0] == e2.1,
        forall|k: u64| #[trigger] entries_map(y).contains_key(k) ==> e2.0 <= k,
    ensures
        sorted(p + seq![e2] + y2 + q),
        entries_map(p + seq![e2] + y2 + q) == entries_map(p + seq![e] + y + q).remove(e.0),
{
    let es = seq![e];
    let e2s = seq![e2];
    lemma_sorted_concat(p + es + y, q);
    lemma_sorted_concat(p + es, y);
    lemma_sorted_concat(p, es);
    let j2 = choose|j: int| 0 <= j < y.len() && #[trigger] y[j].0 == e2.0;
    assert(has_key(y, e2.0));
    assert forall|j: int| 0 <= j < y2.len() implies #[trigger] y2[j].0 > e2.0 && has_key(y, y2[j].0) by {
        lemma_has_key(y2, j);
        assert(entries_map(y).contains_key(y2[j].0));
    }
    assert forall|i: int, j: int| 0 <= i < p.len() && 0 <= j < e2s.len() implies #[trigger] p[i].0 < #[trigger] e2s[j].0 by {
        assert((p + es)[i] == p[i]);
    }
    lemma_sorted_concat(p, e2s);
    assert forall|i: int, j: int| 0 <= i < (p + e2s).len() && 0 <= j < y2.len() implies #[trigger] (p + e2s)[i].0 < #[trigger] y2[j].0 by {
        let r = choose|r: int| 0 <= r < y.len() && #[trigger] y[r].0 == y2[j].0;
        if i < p.len() {
            assert((p + e2s)[i] == p[i]);
            assert((p + es)[i] == p[i]);
        }
    }
    lemma_sorted_concat(p + e2s, y2);
    assert forall|i: int, j: int| 0 <= i < (p + e2s + y2).len() && 0 <= j < q.len() implies #[trigger] (p + e2s + y2)[i].0 < #[trigger] q[j].0 by {
        if i < p.len() {
            assert((p + e2s + y2)[i] == p[i]);
            assert((p + es + y)[i] == p[i]);
        } else if i == p.len() {
            assert((p + e2s + y2)[i] == e2);
            assert((p + es + y)[p.len() + 1 + j2] == y[j2]);
        } else {
            assert((p + e2s + y2)[i] == y2[i - p.len() - 1]);
            let r = choose|r: int| 0 <= r < y.len() && #[trigger] y[r].0 == y2[i - p.len() - 1int].0;
            assert((p + es + y)[p.len() + 1 + r] == y[r]);
        }
    }
    lemma_sorted_concat(p + e2s + y2, q);
    lemma_map_concat(p + es + y, q);
    lemma_map_concat(p + es, y);
    lemma_map_concat(p, es);
    lemma_map_concat(p + e2s + y2, q);
    lemma_map_concat(p + e2s, y2);
    lemma_map_concat(p, e2s);
    lemma_map_single(e.0, e.1);
    lemma_map_single(e2.0, e2.1);
    assert(!entries_map(p).contains_key(e.0)) by {
        if has_key(p, e.0) {
            let r = choose|r: int| 0 <= r < p.len() && #[trigger] p[r].0 == e.0;
            assert((p + es)[r] == p[r]);
            assert(p[r].0 < es[0].0);
        }
    }
    assert(!entries_map(y).contains_key(e.0)) by {
        if has_key(y, e.0) {
            let r = choose|r: int| 0 <= r < y.len() && #[trigger] y[r].0 == e.0;
            assert((p + es + y)[p.len() + 1 + r] == y[r]);
            assert((p + es + y)[p.len() as int] == e);
        }
    }
    assert(!entries_map(q).contains_key(e.0)) by {
        if has_key(q, e.0) {
            let r = choose|r: int| 0 <= r < q.len() && #[trigger] q[r].0 == e.0;
            assert((p + es + y)[p.len() as int] == e);
        }
    }
    assert(entries_map(p + e2s + y2 + q) =~= entries_map(p + es + y + q).remove(e.0));
}


/// The map of a sequence of entries holds finitely many keys.
pub proof fn lemma_map_finite<V>(s: Seq<(u64, V)>)
    ensures
        entries_map(s).dom().finite(),
{
    let keys = s.map_values(|e: (u64, V)| e.0).to_set();
    assert(entries_map(s).dom().subset_of(keys)) by {
        assert forall|k: u64| entries_map(s).dom().contains(k) implies keys.contains(k) by {
            let j = choose|j: int| 0 <= j < s.len() && #[trigger] s[j].0 == k;
            assert(s.map_values(|e: (u64, V)| e.0)[j] == k);
        }
    }
    vstd::seq_lib::seq_to_set_is_finite(s.map_values(|e: (u64, V)| e.0));
    vstd::set_lib::lemma_set_subset_finite(keys, entries_map(s).dom());
}

} // verus!
