use vstd::prelude::*;
use vstd::pervasive::cloned;

use crate::kv::{Key, Value};

verus! {

/// Inserting one key twice, first with payload `v1` and then with `v2`:
/// the second insertion finds the key (it reports an update), leaves the
/// number of keys as the first one left it, keeps every other key as it
/// was, and a lookup of the key then gives a clone of `v2`.
///
/// `m0`, `m1` and `m2` are the tree's contents before, between and after the
/// two calls, related as `RBTree::insert` states.
pub proof fn lemma_insert_same_key_twice<K: Key, V: Value>(
    m0: Map<K, V>,
    m1: Map<K, V>,
    m2: Map<K, V>,
    k: K,
    v1: V,
    v2: V,
)
    requires
        m0.dom().finite(),
        m1 == m0.insert(k, m1[k]),
        cloned(v1, m1[k]),
        m2 == m1.insert(k, m2[k]),
        cloned(v2, m2[k]),
    ensures
        m1.contains_key(k),
        m2.len() == m1.len(),
        m2.dom() == m1.dom(),
        m2.remove(k) == m1.remove(k),
        m2.contains_key(k),
        cloned(v2, m2[k]),
{
    assert(m1.contains_key(k));
    assert(m2.dom() =~= m1.dom());
    assert(m2.remove(k) =~= m1.remove(k));
}

/// After the inserts of `ks[0..i]` into an empty map, the keys present are
/// exactly those of `ks[0..i]`.
proof fn lemma_keys_after_inserts<K: Key, V: Value>(ks: Seq<K>, ms: Seq<Map<K, V>>, i: int)
    requires
        0 <= i <= ks.len(),
        ms.len() > ks.len(),
        ms[0] == Map::<K, V>::empty(),
        forall|t: int| 0 < t <= ks.len() ==> #[trigger] ms[t] == ms[t - 1].insert(ks[t - 1], ms[t][ks[t - 1]]),
    ensures
        forall|key: K| #[trigger] ms[i].contains_key(key) <==> ks.take(i).contains(key),
    decreases i,
{
    if i > 0 {
        lemma_keys_after_inserts(ks, ms, i - 1);
        assert(ms[i] == ms[i - 1].insert(ks[i - 1], ms[i][ks[i - 1]]));
        assert forall|key: K| #[trigger] ms[i].contains_key(key) <==> ks.take(i).contains(key) by {
            if ms[i].contains_key(key) {
                if key == ks[i - 1] {
                    assert(ks.take(i)[i - 1] == key);
                } else {
                    assert(ms[i - 1].contains_key(key));
                    let w = choose|w: int| 0 <= w < i - 1 && #[trigger] ks.take(i - 1)[w] == key;
                    assert(ks.take(i)[w] == key);
                }
            }
            if ks.take(i).contains(key) {
                let w = choose|w: int| 0 <= w < i && #[trigger] ks.take(i)[w] == key;
                if w < i - 1 {
                    assert(ks.take(i - 1)[w] == key);
                }
            }
        }
    } else {
        assert forall|key: K| #[trigger] ms[i].contains_key(key) <==> ks.take(i).contains(key) by {
            assert(!ms[0].contains_key(key));
        }
    }
}

/// After the deletes of `ds[0..j]`, the keys present are those present
/// before them that `ds[0..j]` does not name.
proof fn lemma_keys_after_deletes<K: Key, V: Value>(n: int, ds: Seq<K>, ms: Seq<Map<K, V>>, j: int)
    requires
        0 <= n,
        0 <= j <= ds.len(),
        ms.len() == n + ds.len() + 1,
        forall|u: int| n < u < ms.len() ==> #[trigger] ms[u] == ms[u - 1].remove(ds[u - n - 1]),
    ensures
        forall|key: K| #[trigger] ms[n + j].contains_key(key) <==> ms[n].contains_key(key) && !ds.take(j).contains(key),
    decreases j,
{
    if j > 0 {
        lemma_keys_after_deletes(n, ds, ms, j - 1);
        assert(ms[n + j] == ms[n + j - 1].remove(ds[j - 1]));
        assert forall|key: K| #[trigger] ms[n + j].contains_key(key) <==> ms[n].contains_key(key) && !ds.take(j).contains(key) by {
            assert(ms[n + (j - 1)] == ms[n + j - 1]);
            if ds.take(j).contains(key) {
                let w = choose|w: int| 0 <= w < j && #[trigger] ds.take(j)[w] == key;
                if w < j - 1 {
                    assert(ds.take(j - 1)[w] == key);
                }
            }
            if ds.take(j - 1).contains(key) {
                let w = choose|w: int| 0 <= w < j - 1 && #[trigger] ds.take(j - 1)[w] == key;
                assert(ds.take(j)[w] == key);
            }
            if key == ds[j - 1] {
                assert(ds.take(j)[j - 1] == key);
            }
        }
    } else {
        assert(ds.take(0) =~= Seq::<K>::empty());
    }
}

/// Inserting every key of `ks` into an empty tree, then deleting every key
/// of `ds`, where `ds` names each key of `ks` in any order, leaves an empty
/// tree of size zero.
///
/// `ms` lists the tree's contents before the first call and after each
/// call, related as `RBTree::insert` and `RBTree::delete` state them: call
/// `i` (from one) inserts `ks[i - 1]` while `i <= ks.len()`, and deletes
/// `ds[i - ks.len() - 1]` after that.
pub proof fn lemma_insert_all_then_delete_all<K: Key, V: Value>(
    ks: Seq<K>,
    ds: Seq<K>,
    ms: Seq<Map<K, V>>,
)
    requires
        ms.len() == ks.len() + ds.len() + 1,
        ms[0] == Map::<K, V>::empty(),
        forall|i: int| 0 < i <= ks.len() ==> #[trigger] ms[i] == ms[i - 1].insert(ks[i - 1], ms[i][ks[i - 1]]),
        forall|j: int| ks.len() < j < ms.len() ==> #[trigger] ms[j] == ms[j - 1].remove(ds[j - ks.len() - 1]),
        forall|i: int| 0 <= i < ks.len() ==> ds.contains(#[trigger] ks[i]),
    ensures
        ms.last() == Map::<K, V>::empty(),
        ms.last().len() == 0,
{
    let (n, d) = (ks.len() as int, ds.len() as int);
    lemma_keys_after_inserts(ks, ms, n);
    lemma_keys_after_deletes(n, ds, ms, d);
    assert(ds.take(d) =~= ds);
    assert(ks.take(n) =~= ks);
    assert forall|key: K| !(#[trigger] ms.last().contains_key(key)) by {
        assert(ms.last() == ms[n + d]);
        if ms[n + d].contains_key(key) {
            assert(ms[n].contains_key(key));
            let w = choose|w: int| 0 <= w < n && #[trigger] ks.take(n)[w] == key;
            assert(ds.contains(ks[w]));
        }
    }
    assert(ms.last() =~= Map::<K, V>::empty());
}

} // verus!
