//! A name-to-value store kept as a vector of pairs with distinct names,
//! modelled as a `Map`. Shared by the cookie and set-cookie stores.

use vstd::prelude::*;

verus! {

/// The map collected from the first `i` pairs; later pairs win on a
/// repeated name.
pub open spec fn kv_map_upto<V>(es: Seq<(Seq<char>, V)>, i: int) -> Map<Seq<char>, V>
    decreases i,
{
    if i <= 0 {
        Map::empty()
    } else {
        kv_map_upto(es, i - 1).insert(es[i - 1].0, es[i - 1].1)
    }
}

/// The whole sequence's map.
pub open spec fn kv_map<V>(es: Seq<(Seq<char>, V)>) -> Map<Seq<char>, V> {
    kv_map_upto(es, es.len() as int)
}

/// No name occurs twice.
pub open spec fn kv_distinct<V>(es: Seq<(Seq<char>, V)>) -> bool {
    forall|a: int, b: int| 0 <= a < b < es.len() ==> (#[trigger] es[a]).0 != (#[trigger] es[b]).0
}

/// With distinct names, membership and lookup go through the one pair
/// carrying the name.
pub proof fn lemma_kv_lookup<V>(es: Seq<(Seq<char>, V)>, k: Seq<char>, i: int)
    requires
        kv_distinct(es),
        0 <= i <= es.len(),
    ensures
        kv_map_upto(es, i).contains_key(k) <==> exists|j: int|
            0 <= j < i && (#[trigger] es[j]).0 == k,
        forall|j: int| 0 <= j < i && (#[trigger] es[j]).0 == k ==> kv_map_upto(es, i)[k] == es[j].1,
    decreases i,
{
    if i > 0 {
        lemma_kv_lookup(es, k, i - 1);
    }
}

/// Replacing the one pair that carried `k` is, at the map level, a plain
/// insert.
pub proof fn lemma_kv_remove_push<V>(es: Seq<(Seq<char>, V)>, j: int, k: Seq<char>, v: V)
    requires
        kv_distinct(es),
        0 <= j < es.len(),
        es[j].0 == k,
    ensures
        kv_distinct(es.remove(j).push((k, v))),
        kv_map(es.remove(j).push((k, v))) =~= kv_map(es).insert(k, v),
{
    let es2 = es.remove(j).push((k, v));
    assert forall|a: int, b: int|
        0 <= a < b < es2.len() implies (#[trigger] es2[a]).0 != (#[trigger] es2[b]).0 by {
        let a0 = if a < j {
            a
        } else {
            a + 1
        };
        if b < es2.len() - 1 {
            let b0 = if b < j {
                b
            } else {
                b + 1
            };
            assert(es2[a] == es[a0] && es2[b] == es[b0]);
        } else {
            assert(es2[a] == es[a0]);
            assert(es[a0].0 != es[j].0);
        }
    }
    let m1 = kv_map(es2);
    let m2 = kv_map(es).insert(k, v);
    assert forall|key: Seq<char>|
        #![trigger m1.dom().contains(key)]
        #![trigger m2.dom().contains(key)]
        m1.contains_key(key) == m2.contains_key(key) && (m1.contains_key(key) ==> m1[key]
            == m2[key]) by {
        lemma_kv_lookup(es2, key, es2.len() as int);
        lemma_kv_lookup(es, key, es.len() as int);
        if key == k {
            assert(es2[es2.len() - 1].0 == k);
            assert(m1[key] == v);
        } else {
            if m1.contains_key(key) {
                let t = choose|t: int| 0 <= t < es2.len() && (#[trigger] es2[t]).0 == key;
                let t0 = if t < j {
                    t
                } else {
                    t + 1
                };
                assert(es[t0] == es2[t]);
                assert(m2[key] == es[t0].1);
            } else if m2.contains_key(key) {
                let t = choose|t: int| 0 <= t < es.len() && (#[trigger] es[t]).0 == key;
                if t < j {
                    assert(es2[t] == es[t]);
                } else {
                    assert(es2[t - 1] == es[t]);
                }
            }
        }
    }
    assert(m1 =~= m2);
}

/// Appending a pair whose name is absent is a plain insert.
pub proof fn lemma_kv_absent_push<V>(es: Seq<(Seq<char>, V)>, k: Seq<char>, v: V)
    requires
        kv_distinct(es),
        forall|t: int| 0 <= t < es.len() ==> (#[trigger] es[t]).0 != k,
    ensures
        kv_distinct(es.push((k, v))),
        kv_map(es.push((k, v))) =~= kv_map(es).insert(k, v),
{
    let es2 = es.push((k, v));
    assert forall|a: int, b: int|
        0 <= a < b < es2.len() implies (#[trigger] es2[a]).0 != (#[trigger] es2[b]).0 by {
        if b < es2.len() - 1 {
            assert(es2[a] == es[a] && es2[b] == es[b]);
        } else {
            assert(es2[a] == es[a]);
        }
    }
    assert(kv_map_upto(es2, es2.len() - 1) =~= kv_map(es)) by {
        lemma_kv_prefix_same(es, es2, es.len() as int);
    }
}

/// Two pair sequences that agree on a prefix collect the same map over
/// that prefix.
pub proof fn lemma_kv_prefix_same<V>(es: Seq<(Seq<char>, V)>, es2: Seq<(Seq<char>, V)>, i: int)
    requires
        0 <= i <= es.len(),
        i <= es2.len(),
        forall|t: int| 0 <= t < i ==> es[t] == es2[t],
    ensures
        kv_map_upto(es, i) == kv_map_upto(es2, i),
    decreases i,
{
    if i > 0 {
        lemma_kv_prefix_same(es, es2, i - 1);
    }
}

/// Dropping the one pair that carried `k` is, at the map level, a plain
/// remove.
pub proof fn lemma_kv_removed<V>(es: Seq<(Seq<char>, V)>, j: int, k: Seq<char>)
    requires
        kv_distinct(es),
        0 <= j < es.len(),
        es[j].0 == k,
    ensures
        kv_distinct(es.remove(j)),
        kv_map(es.remove(j)) =~= kv_map(es).remove(k),
{
    let es2 = es.remove(j);
    assert forall|a: int, b: int|
        0 <= a < b < es2.len() implies (#[trigger] es2[a]).0 != (#[trigger] es2[b]).0 by {
        let a0 = if a < j {
            a
        } else {
            a + 1
        };
        let b0 = if b < j {
            b
        } else {
            b + 1
        };
        assert(es2[a] == es[a0] && es2[b] == es[b0]);
    }
    let m1 = kv_map(es2);
    let m2 = kv_map(es).remove(k);
    assert forall|key: Seq<char>|
        #![trigger m1.dom().contains(key)]
        #![trigger m2.dom().contains(key)]
        m1.contains_key(key) == m2.contains_key(key) && (m1.contains_key(key) ==> m1[key]
            == m2[key]) by {
        lemma_kv_lookup(es2, key, es2.len() as int);
        lemma_kv_lookup(es, key, es.len() as int);
        if key != k {
            if m1.contains_key(key) {
                let t = choose|t: int| 0 <= t < es2.len() && (#[trigger] es2[t]).0 == key;
                let t0 = if t < j {
                    t
                } else {
                    t + 1
                };
                assert(es[t0] == es2[t]);
                assert(m2[key] == es[t0].1);
            } else if m2.contains_key(key) {
                let t = choose|t: int| 0 <= t < es.len() && (#[trigger] es[t]).0 == key;
                if t < j {
                    assert(es2[t] == es[t]);
                } else {
                    assert(es2[t - 1] == es[t]);
                }
            }
        } else {
            if m1.contains_key(key) {
                let t = choose|t: int| 0 <= t < es2.len() && (#[trigger] es2[t]).0 == key;
                let t0 = if t < j {
                    t
                } else {
                    t + 1
                };
                assert(es[t0] == es2[t]);
                assert(es[t0].0 != es[j].0);
            }
        }
    }
    assert(m1 =~= m2);
}

} // verus!
