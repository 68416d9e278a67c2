use vstd::prelude::*;

verus! {

/// The values of the keys of `m` that lie in `[low, high]`, in ascending key order.
pub open spec fn values_in_range<V>(m: Map<u64, V>, low: int, high: int) -> Seq<V>
    decreases high - low + 1,
{
    if low > high {
        Seq::empty()
    } else if 0 <= low <= u64::MAX && m.contains_key(low as u64) {
        seq![m[low as u64]] + values_in_range(m, low + 1, high)
    } else {
        values_in_range(m, low + 1, high)
    }
}

/// Splitting the interval at `mid` splits the result.
pub proof fn lemma_range_split<V>(m: Map<u64, V>, low: int, mid: int, high: int)
    requires
        low <= mid <= high + 1,
    ensures
        values_in_range(m, low, high) == values_in_range(m, low, mid - 1) + values_in_range(m, mid, high),
    decreases mid - low,
{
    if low == mid {
        assert(values_in_range(m, low, mid - 1) =~= Seq::<V>::empty());
        assert(values_in_range(m, low, high) =~= Seq::<V>::empty() + values_in_range(m, mid, high));
    } else {
        lemma_range_split(m, low + 1, mid, high);
        assert(values_in_range(m, low, high) =~= values_in_range(m, low, mid - 1) + values_in_range(m, mid, high));
    }
}

/// Two maps that agree on `[low, high]` give the same result there.
pub proof fn lemma_range_agree<V>(m1: Map<u64, V>, m2: Map<u64, V>, low: int, high: int)
    requires
        forall|k: u64| low <= k <= high ==> (m1.contains_key(k) <==> m2.contains_key(k)),
        forall|k: u64| low <= k <= high && m1.contains_key(k) ==> m1[k] == m2[k],
    ensures
        values_in_range(m1, low, high) == values_in_range(m2, low, high),
    decreases high - low + 1,
{
    if low <= high {
        lemma_range_agree(m1, m2, low + 1, high);
    }
}

/// A map with no key in `[low, high]` gives the empty sequence.
pub proof fn lemma_range_none<V>(m: Map<u64, V>, low: int, high: int)
    requires
        forall|k: u64| low <= k <= high ==> !m.contains_key(k),
    ensures
        values_in_range(m, low, high) == Seq::<V>::empty(),
    decreases high - low + 1,
{
    if low <= high {
        lemma_range_none(m, low + 1, high);
    }
}

/// Where every key of `a` is below `c` and every key of `b` is at least `c`,
/// the result on their union is the result on `a` followed by that on `b`.
pub proof fn lemma_range_union<V>(a: Map<u64, V>, b: Map<u64, V>, c: int, low: int, high: int)
    requires
        forall|k: u64| a.contains_key(k) ==> k < c,
        forall|k: u64| b.contains_key(k) ==> k >= c,
    ensures
        values_in_range(a.union_prefer_right(b), low, high) == values_in_range(a, low, high)
            + values_in_range(b, low, high),
{
    let m = a.union_prefer_right(b);
    if low > high {
        assert(values_in_range(a, low, high) + values_in_range(b, low, high) =~= Seq::<V>::empty());
    } else {
        let mid = if c < low { low } else if c > high + 1 { high + 1 } else { c };
        lemma_range_split(m, low, mid, high);
        lemma_range_split(a, low, mid, high);
        lemma_range_split(b, low, mid, high);
        lemma_range_agree(m, a, low, mid - 1);
        lemma_range_agree(m, b, mid, high);
        lemma_range_none(a, mid, high);
        lemma_range_none(b, low, mid - 1);
        assert(values_in_range(a, low, high) =~= values_in_range(a, low, mid - 1));
        assert(values_in_range(b, low, high) =~= values_in_range(b, mid, high));
    }
}

/// The result on a single entry.
pub proof fn lemma_range_single<V>(k: u64, v: V, low: int, high: int)
    ensures
        values_in_range(map![k => v], low, high) == (if low <= k <= high {
            seq![v]
        } else {
            Seq::<V>::empty()
        }),
{
    let m = map![k => v];
    if low <= k && k <= high {
        lemma_range_split(m, low, k as int, high);
        lemma_range_split(m, k as int, k + 1, high);
        lemma_range_none(m, low, k - 1);
        lemma_range_none(m, k + 1, high);
        assert(values_in_range(m, k as int, k as int) =~= seq![v]);
        assert(values_in_range(m, low, high) =~= seq![v]);
    } else {
        lemma_range_none(m, low, high);
    }
}

} // verus!
