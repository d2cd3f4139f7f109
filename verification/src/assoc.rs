//! Association lists: sequences of key/value pairs with distinct keys, read as maps.
use vstd::prelude::*;

verus! {

/// The map that an association list denotes; a later pair wins over an earlier one.
pub open spec fn assoc_map<K, V>(s: Seq<(K, V)>) -> Map<K, V>
    decreases s.len(),
{
    if s.len() == 0 {
        Map::empty()
    } else {
        assoc_map(s.drop_last()).insert(s.last().0, s.last().1)
    }
}

/// No key occurs twice.
pub open spec fn keys_unique<K, V>(s: Seq<(K, V)>) -> bool {
    forall|i: int, j: int| 0 <= i < j < s.len() ==> #[trigger] s[i].0 != #[trigger] s[j].0
}

/// A key is in the map exactly when some pair has it.
pub proof fn lemma_assoc_contains<K, V>(s: Seq<(K, V)>, k: K)
    ensures
        assoc_map(s).contains_key(k) <==> exists|i: int| 0 <= i < s.len() && (#[trigger] s[i]).0 == k,
    decreases s.len(),
{
    if s.len() > 0 {
        let d = s.drop_last();
        lemma_assoc_contains(d, k);
        if exists|i: int| 0 <= i < d.len() && (#[trigger] d[i]).0 == k {
            let i = choose|i: int| 0 <= i < d.len() && (#[trigger] d[i]).0 == k;
            assert(s[i] == d[i]);
        }
        if exists|i: int| 0 <= i < s.len() && (#[trigger] s[i]).0 == k {
            let i = choose|i: int| 0 <= i < s.len() && (#[trigger] s[i]).0 == k;
            if i < s.len() - 1 {
                assert(d[i] == s[i]);
            }
        }
    }
}

/// With distinct keys, each pair's key maps to that pair's value.
pub proof fn lemma_assoc_index<K, V>(s: Seq<(K, V)>, i: int)
    requires
        keys_unique(s),
        0 <= i < s.len(),
    ensures
        assoc_map(s).contains_key(s[i].0),
        assoc_map(s)[s[i].0] == s[i].1,
    decreases s.len(),
{
    let d = s.drop_last();
    if i < s.len() - 1 {
        assert(d[i] == s[i]);
        assert(keys_unique(d)) by {
            assert forall|a: int, b: int| 0 <= a < b < d.len() implies #[trigger] d[a].0
                != #[trigger] d[b].0 by {
                assert(d[a] == s[a] && d[b] == s[b]);
            }
        }
        lemma_assoc_index(d, i);
        assert(s[i].0 != s[s.len() - 1].0);
    }
}

/// With distinct keys, replacing the value of pair `i` updates the map at its key.
pub proof fn lemma_assoc_update<K, V>(s: Seq<(K, V)>, i: int, v: V)
    requires
        keys_unique(s),
        0 <= i < s.len(),
    ensures
        assoc_map(s.update(i, (s[i].0, v))) == assoc_map(s).insert(s[i].0, v),
        keys_unique(s.update(i, (s[i].0, v))),
    decreases s.len(),
{
    let t = s.update(i, (s[i].0, v));
    let d = s.drop_last();
    assert(keys_unique(t)) by {
        assert forall|a: int, b: int| 0 <= a < b < t.len() implies #[trigger] t[a].0
            != #[trigger] t[b].0 by {
            assert(t[a].0 == s[a].0 && t[b].0 == s[b].0);
        }
    }
    assert(keys_unique(d)) by {
        assert forall|a: int, b: int| 0 <= a < b < d.len() implies #[trigger] d[a].0
            != #[trigger] d[b].0 by {
            assert(d[a] == s[a] && d[b] == s[b]);
        }
    }
    if i == s.len() - 1 {
        assert(t.drop_last() =~= d);
        lemma_assoc_contains(d, s[i].0);
        assert(assoc_map(t) =~= assoc_map(s).insert(s[i].0, v));
    } else {
        assert(t.drop_last() =~= d.update(i, (d[i].0, v)));
        assert(d[i] == s[i]);
        lemma_assoc_update(d, i, v);
        assert(s[i].0 != s[s.len() - 1].0);
        assert(assoc_map(t) =~= assoc_map(s).insert(s[i].0, v));
    }
}

/// Appending a pair whose key is new keeps keys distinct.
pub proof fn lemma_assoc_push_unique<K, V>(s: Seq<(K, V)>, k: K, v: V)
    requires
        keys_unique(s),
        !assoc_map(s).contains_key(k),
    ensures
        keys_unique(s.push((k, v))),
        assoc_map(s.push((k, v))) == assoc_map(s).insert(k, v),
{
    lemma_assoc_contains(s, k);
    let t = s.push((k, v));
    assert(t.drop_last() =~= s);
    assert forall|a: int, b: int| 0 <= a < b < t.len() implies #[trigger] t[a].0 != #[trigger] t[b].0 by {
        if b == s.len() {
            assert(t[a] == s[a]);
        } else {
            assert(t[a] == s[a] && t[b] == s[b]);
        }
    }
}

/// With distinct keys, removing pair `i` removes its key from the map.
pub proof fn lemma_assoc_remove<K, V>(s: Seq<(K, V)>, i: int)
    requires
        keys_unique(s),
        0 <= i < s.len(),
    ensures
        assoc_map(s.remove(i)) == assoc_map(s).remove(s[i].0),
        keys_unique(s.remove(i)),
    decreases s.len(),
{
    let t = s.remove(i);
    let d = s.drop_last();
    assert(keys_unique(t)) by {
        assert forall|a: int, b: int| 0 <= a < b < t.len() implies #[trigger] t[a].0
            != #[trigger] t[b].0 by {
            let a2 = if a < i { a } else { a + 1 };
            let b2 = if b < i { b } else { b + 1 };
            assert(t[a] == s[a2] && t[b] == s[b2]);
        }
    }
    assert(keys_unique(d)) by {
        assert forall|a: int, b: int| 0 <= a < b < d.len() implies #[trigger] d[a].0
            != #[trigger] d[b].0 by {
            assert(d[a] == s[a] && d[b] == s[b]);
        }
    }
    if i == s.len() - 1 {
        assert(t =~= d);
        lemma_assoc_contains(d, s[i].0);
        assert(assoc_map(t) =~= assoc_map(s).remove(s[i].0));
    } else {
        assert(t.drop_last() =~= d.remove(i));
        assert(t.last() == s.last());
        assert(d[i] == s[i]);
        lemma_assoc_remove(d, i);
        assert(s[i].0 != s[s.len() - 1].0);
        assert(assoc_map(t) =~= assoc_map(s).remove(s[i].0));
    }
}

} // verus!
