//! Grouping a keyed sequence by key: the distinct keys in order of first
//! occurrence, each with its values in order.

use vstd::prelude::*;

verus! {

/// The distinct keys of `s`, in order of first occurrence.
pub open spec fn keys_in_order<K, V>(s: Seq<(K, V)>) -> Seq<K>
    decreases s.len(),
{
    if s.len() == 0 {
        Seq::<K>::empty()
    } else {
        let prev = keys_in_order(s.drop_last());
        if prev.contains(s.last().0) {
            prev
        } else {
            prev.push(s.last().0)
        }
    }
}

/// The values that `s` pairs with key `k`, in order.
pub open spec fn values_of<K, V>(s: Seq<(K, V)>, k: K) -> Seq<V>
    decreases s.len(),
{
    if s.len() == 0 {
        Seq::<V>::empty()
    } else {
        let prev = values_of(s.drop_last(), k);
        if s.last().0 == k {
            prev.push(s.last().1)
        } else {
            prev
        }
    }
}

/// `s` grouped by key: each distinct key, in order of first occurrence,
/// with all its values in order.
pub open spec fn grouped<K, V>(s: Seq<(K, V)>) -> Seq<(K, Seq<V>)> {
    keys_in_order(s).map_values(|k: K| (k, values_of(s, k)))
}

/// The keys of groups are distinct.
pub open spec fn distinct_keys<K, V>(g: Seq<(K, Seq<V>)>) -> bool {
    forall|i: int, j: int| 0 <= i < j < g.len() ==> g[i].0 != g[j].0
}

/// Adds value `v` under key `k` to groups `g`: to the group of `k` where
/// there is one, else as a new last group.
pub open spec fn group_add<K, V>(g: Seq<(K, Seq<V>)>, k: K, v: V) -> Seq<(K, Seq<V>)> {
    if exists|i: int| 0 <= i < g.len() && g[i].0 == k {
        let i = choose|i: int| 0 <= i < g.len() && g[i].0 == k;
        g.update(i, (k, g[i].1.push(v)))
    } else {
        g.push((k, seq![v]))
    }
}

/// A key is among the distinct keys exactly when it occurs, and the
/// distinct keys are distinct.
pub proof fn lemma_keys_in_order<K, V>(s: Seq<(K, V)>)
    ensures
        forall|i: int, j: int| 0 <= i < j < keys_in_order(s).len() ==> keys_in_order(s)[i] != keys_in_order(s)[j],
        forall|k: K| keys_in_order(s).contains(k) <==> exists|j: int| 0 <= j < s.len() && #[trigger] s[j].0 == k,
    decreases s.len(),
{
    if s.len() > 0 {
        let prev = s.drop_last();
        lemma_keys_in_order(prev);
        let kp = keys_in_order(prev);
        let ks = keys_in_order(s);
        assert forall|k: K| ks.contains(k) implies exists|j: int| 0 <= j < s.len() && #[trigger] s[j].0 == k by {
            if kp.contains(k) {
                assert(exists|j: int| 0 <= j < prev.len() && #[trigger] prev[j].0 == k);
                let j = choose|j: int| 0 <= j < prev.len() && #[trigger] prev[j].0 == k;
                assert(s[j] == prev[j]);
            } else {
                assert(s[s.len() - 1].0 == k);
            }
        }
        assert forall|k: K| (exists|j: int| 0 <= j < s.len() && #[trigger] s[j].0 == k) implies ks.contains(k) by {
            let j = choose|j: int| 0 <= j < s.len() && #[trigger] s[j].0 == k;
            if j < prev.len() {
                assert(prev[j] == s[j]);
                assert(kp.contains(k));
                if !kp.contains(s.last().0) {
                    let i = choose|i: int| 0 <= i < kp.len() && kp[i] == k;
                    assert(ks[i] == k);
                }
            } else if !kp.contains(s.last().0) {
                assert(ks[kp.len() as int] == k);
            }
        }
        assert forall|i: int, j: int| 0 <= i < j < ks.len() implies ks[i] != ks[j] by {
            if j == kp.len() && !kp.contains(s.last().0) {
                assert(kp[i] == ks[i]);
            }
        }
    }
}

/// Grouping one more pair adds it to the groups.
pub proof fn lemma_grouped_push<K, V>(s: Seq<(K, V)>, k: K, v: V)
    ensures
        distinct_keys(grouped(s)),
        grouped(s.push((k, v))) == group_add(grouped(s), k, v),
{
    let t = s.push((k, v));
    let g = grouped(s);
    let ks = keys_in_order(s);
    lemma_keys_in_order(s);
    assert(t.drop_last() =~= s);
    assert(t.last() == (k, v));
    assert forall|i: int, j: int| 0 <= i < j < g.len() implies g[i].0 != g[j].0 by {
        assert(g[i].0 == ks[i] && g[j].0 == ks[j]);
    }
    assert forall|x: K| x != k implies values_of(t, x) == values_of(s, x) by {}
    assert(values_of(t, k) == values_of(s, k).push(v));
    if exists|i: int| 0 <= i < g.len() && g[i].0 == k {
        let i = choose|i: int| 0 <= i < g.len() && g[i].0 == k;
        assert(ks[i] == k);
        assert(ks.contains(k));
        assert(keys_in_order(t) == ks);
        assert(grouped(t) =~= g.update(i, (k, g[i].1.push(v)))) by {
            assert forall|j: int| 0 <= j < g.len() implies grouped(t)[j] == g.update(i, (k, g[i].1.push(v)))[j] by {
                if j != i {
                    assert(ks[j] != k);
                }
            }
        }
    } else {
        assert(!ks.contains(k)) by {
            if ks.contains(k) {
                let i = choose|i: int| 0 <= i < ks.len() && ks[i] == k;
                assert(g[i].0 == k);
            }
        }
        assert(keys_in_order(t) == ks.push(k));
        assert(values_of(s, k) =~= Seq::<V>::empty()) by {
            lemma_values_absent(s, k);
        }
        assert(grouped(t) =~= g.push((k, seq![v]))) by {
            assert forall|j: int| 0 <= j < g.len() implies grouped(t)[j] == g[j] by {
                assert(ks[j] != k) by {
                    if ks[j] == k {
                        assert(ks.contains(k));
                    }
                }
            }
        }
    }
}

/// A key that never occurs has no values.
pub proof fn lemma_values_absent<K, V>(s: Seq<(K, V)>, k: K)
    requires
        !keys_in_order(s).contains(k),
    ensures
        values_of(s, k) == Seq::<V>::empty(),
    decreases s.len(),
{
    if s.len() > 0 {
        let prev = s.drop_last();
        lemma_keys_in_order(s);
        lemma_keys_in_order(prev);
        assert(s.last().0 != k) by {
            if s.last().0 == k {
                assert(s[s.len() - 1].0 == k);
            }
        }
        assert(!keys_in_order(prev).contains(k)) by {
            if keys_in_order(prev).contains(k) {
                let j = choose|j: int| 0 <= j < prev.len() && #[trigger] prev[j].0 == k;
                assert(s[j] == prev[j]);
            }
        }
        lemma_values_absent(prev, k);
    }
}

} // verus!
