//! Association lists: sequences of key-value pairs with distinct keys, and
//! the maps they stand for.
use vstd::prelude::*;

verus! {

/// The keys of a list of pairs are pairwise distinct.
pub open spec fn distinct_keys<K, T>(s: Seq<(K, T)>) -> bool {
    forall|i: int, j: int| 0 <= i < j < s.len() ==> #[trigger] s[i].0 != #[trigger] s[j].0
}

/// The map of a list of pairs; a later pair wins over an earlier one.
pub open spec fn pairs_map<K, T>(s: Seq<(K, T)>, n: int) -> Map<K, T>
    decreases n,
{
    if n <= 0 || n > s.len() {
        Map::empty()
    } else {
        pairs_map(s, n - 1).insert(s[n - 1].0, s[n - 1].1)
    }
}

/// A map of pairs holds exactly their keys, each with its value.
pub proof fn lemma_pairs_map<K, T>(s: Seq<(K, T)>, n: int)
    requires
        0 <= n <= s.len(),
        distinct_keys(s),
    ensures
        forall|k: K| #[trigger] pairs_map(s, n).contains_key(k) <==> exists|i: int| 0 <= i < n && s[i].0 == k,
        forall|i: int| 0 <= i < n ==> #[trigger] pairs_map(s, n)[s[i].0] == s[i].1,
    decreases n,
{
    if n > 0 {
        lemma_pairs_map(s, n - 1);
        let prev = pairs_map(s, n - 1);
        assert(pairs_map(s, n) == prev.insert(s[n - 1].0, s[n - 1].1));
        assert forall|k: K| #[trigger] pairs_map(s, n).contains_key(k) <==> exists|i: int| 0 <= i < n && s[i].0 == k by {
            if pairs_map(s, n).contains_key(k) && k != s[n - 1].0 {
                assert(prev.contains_key(k));
                let i = choose|i: int| 0 <= i < n - 1 && s[i].0 == k;
                assert(0 <= i < n && s[i].0 == k);
            }
            if pairs_map(s, n).contains_key(k) && k == s[n - 1].0 {
                assert(0 <= n - 1 < n && s[n - 1].0 == k);
            }
            if exists|i: int| 0 <= i < n && s[i].0 == k {
                let i = choose|i: int| 0 <= i < n && s[i].0 == k;
                if i < n - 1 {
                    assert(prev.contains_key(k));
                }
            }
        }
        assert forall|i: int| 0 <= i < n implies #[trigger] pairs_map(s, n)[s[i].0] == s[i].1 by {
            if i < n - 1 {
                assert(s[i].0 != s[n - 1].0);
                assert(prev[s[i].0] == s[i].1);
            }
        }
    }
}

/// The maps of two lists of distinct keys agree when the lists hold the same
/// pairs up to order.
pub proof fn lemma_pairs_map_ext<K, T>(s: Seq<(K, T)>, t: Seq<(K, T)>, m: Map<K, T>)
    requires
        distinct_keys(s),
        distinct_keys(t),
        forall|k: K| m.contains_key(k) <==> exists|i: int| 0 <= i < t.len() && t[i].0 == k,
        forall|i: int| 0 <= i < t.len() ==> m[t[i].0] == t[i].1,
        forall|k: K| pairs_map(s, s.len() as int).contains_key(k) <==> m.contains_key(k),
        forall|i: int| 0 <= i < s.len() ==> m.contains_key(s[i].0) && m[s[i].0] == s[i].1,
    ensures
        pairs_map(s, s.len() as int) == m,
{
    lemma_pairs_map(s, s.len() as int);
    assert forall|k: K| #[trigger] pairs_map(s, s.len() as int).contains_key(k) implies pairs_map(s, s.len() as int)[k] == m[k] by {
        let i = choose|i: int| 0 <= i < s.len() && s[i].0 == k;
        assert(pairs_map(s, s.len() as int)[s[i].0] == s[i].1);
    }
    assert(pairs_map(s, s.len() as int) =~= m);
}

/// Replacing the value of a present key is inserting into the map.
pub proof fn lemma_pairs_map_update<K, T>(s: Seq<(K, T)>, i: int, k: K, v: T)
    requires
        distinct_keys(s),
        0 <= i < s.len(),
        s[i].0 == k,
    ensures
        distinct_keys(s.update(i, (k, v))),
        pairs_map(s.update(i, (k, v)), s.len() as int) == pairs_map(s, s.len() as int).insert(k, v),
{
    let t = s.update(i, (k, v));
    assert forall|a: int, b: int| 0 <= a < b < t.len() implies #[trigger] t[a].0 != #[trigger] t[b].0 by {
        assert(s[a].0 != s[b].0);
    }
    lemma_pairs_map(s, s.len() as int);
    let m = pairs_map(s, s.len() as int).insert(k, v);
    assert forall|key: K| m.contains_key(key) <==> exists|j: int| 0 <= j < t.len() && t[j].0 == key by {
        if m.contains_key(key) && key != k {
            let j = choose|j: int| 0 <= j < s.len() && s[j].0 == key;
            assert(t[j].0 == key);
        }
        if key == k {
            assert(t[i].0 == key);
        }
        if exists|j: int| 0 <= j < t.len() && t[j].0 == key {
            let j = choose|j: int| 0 <= j < t.len() && t[j].0 == key;
            if j != i {
                assert(s[j].0 == key);
            }
        }
    }
    assert forall|j: int| 0 <= j < t.len() implies m[t[j].0] == t[j].1 by {
        if j != i {
            assert(s[j].0 != s[i].0);
        }
    }
    lemma_pairs_map(t, t.len() as int);
    lemma_pairs_map_ext(t, t, m);
}

/// Appending a pair with a new key is inserting into the map.
pub proof fn lemma_pairs_map_push<K, T>(s: Seq<(K, T)>, k: K, v: T)
    requires
        distinct_keys(s),
        forall|j: int| 0 <= j < s.len() ==> #[trigger] s[j].0 != k,
    ensures
        distinct_keys(s.push((k, v))),
        pairs_map(s.push((k, v)), s.len() + 1int) == pairs_map(s, s.len() as int).insert(k, v),
{
    let t = s.push((k, v));
    assert forall|a: int, b: int| 0 <= a < b < t.len() implies #[trigger] t[a].0 != #[trigger] t[b].0 by {
        if b < s.len() {
            assert(s[a].0 != s[b].0);
        } else {
            assert(s[a].0 != k);
        }
    }
    assert(t.drop_last() =~= s);
    assert forall|j: int| 0 <= j < s.len() implies #[trigger] pairs_map(t, j) == pairs_map(s, j) by {
        lemma_pairs_map_prefix(s, t, j);
    }
    lemma_pairs_map_prefix(s, t, s.len() as int);
}

/// The map of a prefix depends only on the prefix.
pub proof fn lemma_pairs_map_prefix<K, T>(s: Seq<(K, T)>, t: Seq<(K, T)>, n: int)
    requires
        0 <= n <= s.len(),
        n <= t.len(),
        forall|j: int| 0 <= j < n ==> #[trigger] s[j] == t[j],
    ensures
        pairs_map(s, n) == pairs_map(t, n),
    decreases n,
{
    if n > 0 {
        lemma_pairs_map_prefix(s, t, n - 1);
    }
}

/// A key of no pair is absent from the map; a key of a pair maps to its value.
pub proof fn lemma_pairs_map_lookup<K, T>(s: Seq<(K, T)>, k: K)
    requires
        distinct_keys(s),
    ensures
        (forall|j: int| 0 <= j < s.len() ==> #[trigger] s[j].0 != k) ==> !pairs_map(s, s.len() as int).contains_key(k),
        forall|j: int| 0 <= j < s.len() && #[trigger] s[j].0 == k ==> pairs_map(s, s.len() as int).contains_key(k)
            && pairs_map(s, s.len() as int)[k] == s[j].1,
{
    lemma_pairs_map(s, s.len() as int);
}

} // verus!
verus! {

/// The map of a list of distinct keys has one key per pair.
pub proof fn lemma_pairs_map_len<K, T>(s: Seq<(K, T)>)
    requires
        distinct_keys(s),
    ensures
        pairs_map(s, s.len() as int).dom().finite(),
        pairs_map(s, s.len() as int).dom().len() == s.len(),
    decreases s.len(),
{
    if s.len() > 0 {
        let t = s.drop_last();
        assert forall|a: int, b: int| 0 <= a < b < t.len() implies #[trigger] t[a].0 != #[trigger] t[b].0 by {
            assert(s[a].0 != s[b].0);
        }
        lemma_pairs_map_len(t);
        lemma_pairs_map_prefix(s, t, t.len() as int);
        lemma_pairs_map(t, t.len() as int);
        assert forall|j: int| 0 <= j < t.len() implies #[trigger] t[j].0 != s.last().0 by {
            assert(s[j].0 != s[s.len() - 1].0);
        }
        assert(!pairs_map(t, t.len() as int).contains_key(s.last().0));
    }
}

/// Dropping a pair is removing its key from the map.
pub proof fn lemma_pairs_map_remove<K, T>(s: Seq<(K, T)>, i: int)
    requires
        distinct_keys(s),
        0 <= i < s.len(),
    ensures
        distinct_keys(s.remove(i)),
        pairs_map(s.remove(i), s.len() - 1) == pairs_map(s, s.len() as int).remove(s[i].0),
{
    let r = s.remove(i);
    assert forall|a: int, b: int| 0 <= a < b < r.len() implies #[trigger] r[a].0 != #[trigger] r[b].0 by {
        let a2 = if a < i { a } else { a + 1 };
        let b2 = if b < i { b } else { b + 1 };
        assert(r[a] == s[a2] && r[b] == s[b2]);
        assert(s[a2].0 != s[b2].0);
    }
    lemma_pairs_map(s, s.len() as int);
    let m = pairs_map(s, s.len() as int).remove(s[i].0);
    assert forall|key: K| m.contains_key(key) <==> exists|j: int| 0 <= j < r.len() && r[j].0 == key by {
        if m.contains_key(key) {
            let j = choose|j: int| 0 <= j < s.len() && s[j].0 == key;
            assert(j != i);
            let j2 = if j < i { j } else { j - 1 };
            assert(r[j2] == s[j]);
        }
        if exists|j: int| 0 <= j < r.len() && r[j].0 == key {
            let j = choose|j: int| 0 <= j < r.len() && r[j].0 == key;
            let j2 = if j < i { j } else { j + 1 };
            assert(r[j] == s[j2]);
            assert(s[j2].0 != s[i].0);
        }
    }
    assert forall|j: int| 0 <= j < r.len() implies m[r[j].0] == r[j].1 by {
        let j2 = if j < i { j } else { j + 1 };
        assert(r[j] == s[j2]);
        assert(s[j2].0 != s[i].0);
    }
    lemma_pairs_map(r, r.len() as int);
    lemma_pairs_map_ext(r, r, m);
}

} // verus!
