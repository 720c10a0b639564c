//! Association lists: sequences of key-value pairs read as finite maps.
//!
//! The word table keeps its rows in vectors. The functions here say which map a
//! sequence of pairs stands for, and the lemmas say how that map changes when a pair
//! with a new key is appended or the value of a pair is replaced.

use vstd::prelude::*;

verus! {

/// Whether some pair of `s` has the key `k`.
pub open spec fn has_key<K, V>(s: Seq<(K, V)>, k: K) -> bool {
    exists|i: int| 0 <= i < s.len() && (#[trigger] s[i]).0 == k
}

/// The position of a pair with the key `k`, where `s` has one.
pub open spec fn index_of<K, V>(s: Seq<(K, V)>, k: K) -> int {
    choose|i: int| 0 <= i < s.len() && (#[trigger] s[i]).0 == k
}

/// No key occurs in two pairs of `s`.
pub open spec fn keys_distinct<K, V>(s: Seq<(K, V)>) -> bool {
    forall|i: int, j: int| 0 <= i < j < s.len() ==> (#[trigger] s[i]).0 != (#[trigger] s[j]).0
}

/// The map that `s` stands for: its keys, each with the value it is paired with.
pub open spec fn to_map<K, V>(s: Seq<(K, V)>) -> Map<K, V> {
    Map::new(|k: K| has_key(s, k), |k: K| s[index_of(s, k)].1)
}

/// With distinct keys, the pair at position `i` is the one found for its key.
pub proof fn lemma_lookup<K, V>(s: Seq<(K, V)>, i: int)
    requires
        keys_distinct(s),
        0 <= i < s.len(),
    ensures
        has_key(s, s[i].0),
        index_of(s, s[i].0) == i,
        to_map(s).contains_key(s[i].0),
        to_map(s)[s[i].0] == s[i].1,
{
}

/// A key that no pair carries is not in the map.
pub proof fn lemma_absent<K, V>(s: Seq<(K, V)>, k: K)
    requires
        forall|i: int| 0 <= i < s.len() ==> (#[trigger] s[i]).0 != k,
    ensures
        !has_key(s, k),
        !to_map(s).contains_key(k),
{
}

/// The empty list stands for the empty map.
pub proof fn lemma_empty<K, V>()
    ensures
        keys_distinct(Seq::<(K, V)>::empty()),
        to_map(Seq::<(K, V)>::empty()) == Map::<K, V>::empty(),
{
}

/// Appending a pair with a new key inserts it into the map.
pub proof fn lemma_push<K, V>(s: Seq<(K, V)>, k: K, v: V)
    requires
        keys_distinct(s),
        !has_key(s, k),
    ensures
        keys_distinct(s.push((k, v))),
        to_map(s.push((k, v))) == to_map(s).insert(k, v),
{
    let t = s.push((k, v));
    assert forall|i: int, j: int| 0 <= i < j < t.len() implies (#[trigger] t[i]).0 != (
    #[trigger] t[j]).0 by {}
    assert forall|key: K| to_map(t).contains_key(key) <==> to_map(s).insert(k, v).contains_key(
        key,
    ) by {
        if has_key(s, key) {
            let i = index_of(s, key);
            assert(t[i].0 == key);
        }
        if key == k {
            assert(t[s.len() as int].0 == key);
        }
    }
    assert forall|key: K| to_map(t).contains_key(key) implies to_map(t)[key] == to_map(s).insert(
        k,
        v,
    )[key] by {
        let i = index_of(t, key);
        lemma_lookup(t, i);
        if i < s.len() {
            lemma_lookup(s, i);
        }
    }
}

/// Replacing the value of the pair at position `i` replaces the value of its key in
/// the map.
pub proof fn lemma_update<K, V>(s: Seq<(K, V)>, i: int, v: V)
    requires
        keys_distinct(s),
        0 <= i < s.len(),
    ensures
        keys_distinct(s.update(i, (s[i].0, v))),
        to_map(s.update(i, (s[i].0, v))) == to_map(s).insert(s[i].0, v),
{
    let k = s[i].0;
    let t = s.update(i, (k, v));
    assert forall|a: int| 0 <= a < t.len() implies (#[trigger] t[a]).0 == s[a].0 by {}
    assert forall|a: int, b: int| 0 <= a < b < t.len() implies (#[trigger] t[a]).0 != (
    #[trigger] t[b]).0 by {}
    assert forall|key: K| to_map(t).contains_key(key) <==> to_map(s).insert(k, v).contains_key(
        key,
    ) by {
        if has_key(s, key) {
            let a = index_of(s, key);
            assert(t[a].0 == key);
        }
    }
    assert forall|key: K| to_map(t).contains_key(key) implies to_map(t)[key] == to_map(s).insert(
        k,
        v,
    )[key] by {
        let a = index_of(t, key);
        lemma_lookup(t, a);
        if a != i {
            lemma_lookup(s, a);
        }
    }
}

/// The map of a list with distinct keys is finite and has one key for each pair.
pub proof fn lemma_size<K, V>(s: Seq<(K, V)>)
    requires
        keys_distinct(s),
    ensures
        to_map(s).dom().finite(),
        to_map(s).dom().len() == s.len(),
    decreases s.len(),
{
    if s.len() == 0 {
        lemma_empty::<K, V>();
        assert(s == Seq::<(K, V)>::empty());
    } else {
        let init = s.drop_last();
        let last = s.last();
        assert forall|i: int, j: int| 0 <= i < j < init.len() implies (#[trigger] init[i]).0 != (
        #[trigger] init[j]).0 by {}
        assert forall|i: int| 0 <= i < init.len() implies (#[trigger] init[i]).0 != last.0 by {}
        lemma_absent(init, last.0);
        lemma_size(init);
        lemma_push(init, last.0, last.1);
        assert(init.push((last.0, last.1)) == s);
    }
}

} // verus!
