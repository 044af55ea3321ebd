//! Association lists: vectors of key/value pairs with distinct keys, read
//! as finite maps.
use vstd::prelude::*;

verus! {

/// No key occurs twice in `v`.
pub open spec fn keys_distinct<K, V>(v: Seq<(K, V)>) -> bool {
    forall|i: int, j: int| 0 <= i < v.len() && 0 <= j < v.len() && i != j ==> #[trigger] v[i].0 != #[trigger] v[j].0
}

/// `k` is a key of `v`.
pub open spec fn kv_has<K, V>(v: Seq<(K, V)>, k: K) -> bool {
    exists|i: int| 0 <= i < v.len() && #[trigger] v[i].0 == k
}

/// The map `v` stands for.
pub open spec fn kv_map<K, V>(v: Seq<(K, V)>) -> Map<K, V> {
    Map::new(|k: K| kv_has(v, k), |k: K| v[choose|i: int| 0 <= i < v.len() && #[trigger] v[i].0 == k].1)
}

/// Each listed pair is in the map.
pub proof fn lemma_kv_at<K, V>(v: Seq<(K, V)>, i: int)
    requires
        keys_distinct(v),
        0 <= i < v.len(),
    ensures
        kv_map(v).contains_key(v[i].0),
        kv_map(v)[v[i].0] == v[i].1,
{
    assert(kv_has(v, v[i].0));
    let j = choose|j: int| 0 <= j < v.len() && #[trigger] v[j].0 == v[i].0;
    assert(j == i);
}

/// Replacing the value at position `i` updates the map at its key.
pub proof fn lemma_kv_set<K, V>(v: Seq<(K, V)>, i: int, val: V)
    requires
        keys_distinct(v),
        0 <= i < v.len(),
    ensures
        keys_distinct(v.update(i, (v[i].0, val))),
        kv_map(v.update(i, (v[i].0, val))) == kv_map(v).insert(v[i].0, val),
{
    let w = v.update(i, (v[i].0, val));
    assert forall|a: int| 0 <= a < w.len() implies #[trigger] w[a].0 == v[a].0 by {}
    assert(keys_distinct(w)) by {
        assert forall|a: int, b: int| 0 <= a < w.len() && 0 <= b < w.len() && a != b implies #[trigger] w[a].0 != #[trigger] w[b].0 by {
            assert(w[a].0 == v[a].0 && w[b].0 == v[b].0);
        }
    }
    assert forall|x: K| kv_has(w, x) <==> kv_has(v, x) by {
        if kv_has(w, x) {
            let t = choose|t: int| 0 <= t < w.len() && #[trigger] w[t].0 == x;
            assert(v[t].0 == x);
        }
        if kv_has(v, x) {
            let t = choose|t: int| 0 <= t < v.len() && #[trigger] v[t].0 == x;
            assert(w[t].0 == x);
        }
    }
    assert forall|x: K| #[trigger] kv_map(w).contains_key(x) implies kv_map(w)[x] == kv_map(v).insert(v[i].0, val)[x] by {
        let t = choose|t: int| 0 <= t < w.len() && #[trigger] w[t].0 == x;
        lemma_kv_at(w, t);
        if t != i {
            assert(w[t] == v[t]);
            lemma_kv_at(v, t);
        }
    }
    assert(kv_map(w) =~= kv_map(v).insert(v[i].0, val));
}

/// Appending a new key adds it to the map.
pub proof fn lemma_kv_push<K, V>(v: Seq<(K, V)>, k: K, val: V)
    requires
        keys_distinct(v),
        !kv_has(v, k),
    ensures
        keys_distinct(v.push((k, val))),
        kv_map(v.push((k, val))) == kv_map(v).insert(k, val),
{
    let w = v.push((k, val));
    assert(keys_distinct(w)) by {
        assert forall|a: int, b: int| 0 <= a < w.len() && 0 <= b < w.len() && a != b implies #[trigger] w[a].0 != #[trigger] w[b].0 by {
            if a < v.len() && b < v.len() {
                assert(w[a] == v[a] && w[b] == v[b]);
            } else if a < v.len() {
                assert(w[a] == v[a]);
            } else {
                assert(w[b] == v[b]);
            }
        }
    }
    assert forall|x: K| kv_has(w, x) <==> (kv_has(v, x) || x == k) by {
        if kv_has(w, x) && x != k {
            let t = choose|t: int| 0 <= t < w.len() && #[trigger] w[t].0 == x;
            assert(v[t].0 == x);
        }
        if kv_has(v, x) {
            let t = choose|t: int| 0 <= t < v.len() && #[trigger] v[t].0 == x;
            assert(w[t].0 == x);
        }
        if x == k {
            assert(w[v.len() as int].0 == x);
        }
    }
    assert forall|x: K| #[trigger] kv_map(w).contains_key(x) implies kv_map(w)[x] == kv_map(v).insert(k, val)[x] by {
        let t = choose|t: int| 0 <= t < w.len() && #[trigger] w[t].0 == x;
        lemma_kv_at(w, t);
        if t < v.len() {
            assert(w[t] == v[t]);
            lemma_kv_at(v, t);
        }
    }
    assert(kv_map(w) =~= kv_map(v).insert(k, val));
}

/// Removing the pair at position `i` removes its key from the map.
pub proof fn lemma_kv_remove<K, V>(v: Seq<(K, V)>, i: int)
    requires
        keys_distinct(v),
        0 <= i < v.len(),
    ensures
        keys_distinct(v.remove(i)),
        kv_map(v.remove(i)) == kv_map(v).remove(v[i].0),
{
    let w = v.remove(i);
    assert forall|a: int| 0 <= a < w.len() implies #[trigger] w[a] == (if a < i { v[a] } else { v[a + 1] }) by {}
    assert(keys_distinct(w)) by {
        assert forall|a: int, b: int| 0 <= a < w.len() && 0 <= b < w.len() && a != b implies #[trigger] w[a].0 != #[trigger] w[b].0 by {
            let a2 = if a < i { a } else { a + 1 };
            let b2 = if b < i { b } else { b + 1 };
            assert(w[a] == v[a2] && w[b] == v[b2]);
        }
    }
    assert forall|x: K| kv_has(w, x) <==> (kv_has(v, x) && x != v[i].0) by {
        if kv_has(w, x) {
            let t = choose|t: int| 0 <= t < w.len() && #[trigger] w[t].0 == x;
            let t2 = if t < i { t } else { t + 1 };
            assert(w[t] == v[t2]);
            assert(v[t2].0 == x);
        }
        if kv_has(v, x) && x != v[i].0 {
            let t = choose|t: int| 0 <= t < v.len() && #[trigger] v[t].0 == x;
            if t < i {
                assert(w[t] == v[t]);
            } else {
                assert(w[t - 1] == v[t]);
            }
        }
    }
    assert forall|x: K| #[trigger] kv_map(w).contains_key(x) implies kv_map(w)[x] == kv_map(v).remove(v[i].0)[x] by {
        let t = choose|t: int| 0 <= t < w.len() && #[trigger] w[t].0 == x;
        lemma_kv_at(w, t);
        let t2 = if t < i { t } else { t + 1 };
        assert(w[t] == v[t2]);
        lemma_kv_at(v, t2);
    }
    assert(kv_map(w) =~= kv_map(v).remove(v[i].0));
}

/// The map has as many keys as `v` has pairs.
pub proof fn lemma_kv_len<K, V>(v: Seq<(K, V)>)
    requires
        keys_distinct(v),
    ensures
        kv_map(v).dom().finite(),
        kv_map(v).dom().len() == v.len(),
{
    let ks = v.map_values(|e: (K, V)| e.0);
    assert(ks.no_duplicates()) by {
        assert forall|a: int, b: int| 0 <= a < ks.len() && 0 <= b < ks.len() && a != b implies ks[a] != ks[b] by {
            assert(ks[a] == v[a].0 && ks[b] == v[b].0);
        }
    }
    assert(ks.to_set() =~= kv_map(v).dom()) by {
        assert forall|x: K| ks.to_set().contains(x) <==> kv_map(v).dom().contains(x) by {
            if ks.contains(x) {
                let t = choose|t: int| 0 <= t < ks.len() && ks[t] == x;
                assert(v[t].0 == x);
            }
            if kv_has(v, x) {
                let t = choose|t: int| 0 <= t < v.len() && #[trigger] v[t].0 == x;
                assert(ks[t] == x);
            }
        }
    }
    ks.unique_seq_to_set();
}

/// The position of key `h` in `v`.
pub fn find_hash_key<V>(v: &Vec<([u8; 32], V)>, h: &[u8; 32]) -> (r: Option<usize>)
    ensures
        r matches Some(i) ==> i < v@.len() && v@[i as int].0 == *h,
        r is None ==> !kv_has(v@, *h),
{
    let mut i: usize = 0;
    while i < v.len()
        invariant
            0 <= i <= v@.len(),
            forall|j: int| 0 <= j < i ==> v@[j].0 != *h,
        decreases v@.len() - i,
    {
        if crate::hashing::hash_eq(&v[i].0, h) {
            return Some(i);
        }
        i = i + 1;
    }
    None
}

/// The position of key `a` in `v`.
pub fn find_address_key<V>(v: &Vec<([u8; 20], V)>, a: &[u8; 20]) -> (r: Option<usize>)
    ensures
        r matches Some(i) ==> i < v@.len() && v@[i as int].0 == *a,
        r is None ==> !kv_has(v@, *a),
{
    let mut i: usize = 0;
    while i < v.len()
        invariant
            0 <= i <= v@.len(),
            forall|j: int| 0 <= j < i ==> v@[j].0 != *a,
        decreases v@.len() - i,
    {
        if crate::hashing::address_eq(&v[i].0, a) {
            return Some(i);
        }
        i = i + 1;
    }
    None
}

} // verus!
