//! Sequences of key/value entries read as maps.

use vstd::prelude::*;

verus! {

/// The map that a sequence of entries describes: a later entry for a key
/// shadows an earlier one.
pub open spec fn entries_map<K, V>(s: Seq<(K, V)>) -> Map<K, V>
    decreases s.len(),
{
    if s.len() == 0 {
        Map::empty()
    } else {
        entries_map(s.drop_last()).insert(s.last().0, s.last().1)
    }
}

/// No key occurs twice.
pub open spec fn keys_unique<K, V>(s: Seq<(K, V)>) -> bool {
    forall|i: int, j: int| 0 <= i < j < s.len() ==> s[i].0 != s[j].0
}

/// The keys of the map are exactly the keys that occur in the entries.
pub proof fn lemma_entries_map_dom<K, V>(s: Seq<(K, V)>, k: K)
    ensures
        entries_map(s).contains_key(k) <==> exists|i: int| 0 <= i < s.len() && s[i].0 == k,
    decreases s.len(),
{
    if s.len() > 0 {
        let t = s.drop_last();
        lemma_entries_map_dom(t, k);
        if exists|i: int| 0 <= i < s.len() && s[i].0 == k {
            let i = choose|i: int| 0 <= i < s.len() && s[i].0 == k;
            if i < s.len() - 1 {
                assert(t[i].0 == k);
            }
        }
        if exists|i: int| 0 <= i < t.len() && t[i].0 == k {
            let i = choose|i: int| 0 <= i < t.len() && t[i].0 == k;
            assert(s[i].0 == k);
        }
    }
}

/// The last entry for a key gives its value.
pub proof fn lemma_entries_map_last<K, V>(s: Seq<(K, V)>, i: int)
    requires
        0 <= i < s.len(),
        forall|j: int| i < j < s.len() ==> s[j].0 != s[i].0,
    ensures
        entries_map(s).contains_key(s[i].0),
        entries_map(s)[s[i].0] == s[i].1,
    decreases s.len(),
{
    if i < s.len() - 1 {
        let t = s.drop_last();
        assert forall|j: int| i < j < t.len() implies t[j].0 != t[i].0 by {
            assert(t[j] == s[j]);
        }
        lemma_entries_map_last(t, i);
    }
}

/// With unique keys, every entry gives the value of its key.
pub proof fn lemma_entries_map_unique<K, V>(s: Seq<(K, V)>, i: int)
    requires
        keys_unique(s),
        0 <= i < s.len(),
    ensures
        entries_map(s).contains_key(s[i].0),
        entries_map(s)[s[i].0] == s[i].1,
{
    lemma_entries_map_last(s, i);
}

/// Appending an entry inserts it.
pub proof fn lemma_entries_map_push<K, V>(s: Seq<(K, V)>, e: (K, V))
    ensures
        entries_map(s.push(e)) == entries_map(s).insert(e.0, e.1),
{
    assert(s.push(e).drop_last() =~= s);
}

/// Removing one entry of a sequence with unique keys removes its key.
pub proof fn lemma_entries_map_remove<K, V>(s: Seq<(K, V)>, i: int)
    requires
        keys_unique(s),
        0 <= i < s.len(),
    ensures
        keys_unique(s.remove(i)),
        entries_map(s.remove(i)) == entries_map(s).remove(s[i].0),
{
    let r = s.remove(i);
    assert forall|a: int, b: int| 0 <= a < b < r.len() implies r[a].0 != r[b].0 by {
        let a2 = if a < i { a } else { a + 1 };
        let b2 = if b < i { b } else { b + 1 };
        assert(r[a] == s[a2] && r[b] == s[b2]);
    }
    let m = entries_map(s).remove(s[i].0);
    assert forall|k: K| #[trigger] entries_map(r).contains_key(k) <==> m.contains_key(k) by {
        lemma_entries_map_dom(r, k);
        lemma_entries_map_dom(s, k);
        if exists|j: int| 0 <= j < s.len() && s[j].0 == k {
            let j = choose|j: int| 0 <= j < s.len() && s[j].0 == k;
            if k != s[i].0 {
                let j2 = if j < i { j } else { j - 1 };
                assert(r[j2] == s[j]);
            }
        }
        if exists|j: int| 0 <= j < r.len() && r[j].0 == k {
            let j = choose|j: int| 0 <= j < r.len() && r[j].0 == k;
            let j2 = if j < i { j } else { j + 1 };
            assert(r[j] == s[j2]);
        }
    }
    assert forall|k: K| #[trigger] entries_map(r).contains_key(k) implies entries_map(r)[k]
        == m[k] by {
        lemma_entries_map_dom(r, k);
        let j = choose|j: int| 0 <= j < r.len() && r[j].0 == k;
        let j2 = if j < i { j } else { j + 1 };
        assert(r[j] == s[j2]);
        lemma_entries_map_unique(r, j);
        lemma_entries_map_unique(s, j2);
    }
    assert(entries_map(r) =~= m);
}

/// Replacing the value of one entry of a sequence with unique keys updates its key.
pub proof fn lemma_entries_map_update<K, V>(s: Seq<(K, V)>, i: int, v: V)
    requires
        keys_unique(s),
        0 <= i < s.len(),
    ensures
        keys_unique(s.update(i, (s[i].0, v))),
        entries_map(s.update(i, (s[i].0, v))) == entries_map(s).insert(s[i].0, v),
{
    let r = s.update(i, (s[i].0, v));
    assert forall|a: int, b: int| 0 <= a < b < r.len() implies r[a].0 != r[b].0 by {
        assert(r[a].0 == s[a].0 && r[b].0 == s[b].0);
    }
    let m = entries_map(s).insert(s[i].0, v);
    assert forall|k: K| #[trigger] entries_map(r).contains_key(k) <==> m.contains_key(k) by {
        lemma_entries_map_dom(r, k);
        lemma_entries_map_dom(s, k);
        if exists|j: int| 0 <= j < s.len() && s[j].0 == k {
            let j = choose|j: int| 0 <= j < s.len() && s[j].0 == k;
            assert(r[j].0 == k);
        }
        if exists|j: int| 0 <= j < r.len() && r[j].0 == k {
            let j = choose|j: int| 0 <= j < r.len() && r[j].0 == k;
            assert(s[j].0 == k);
        }
    }
    assert forall|k: K| #[trigger] entries_map(r).contains_key(k) implies entries_map(r)[k]
        == m[k] by {
        lemma_entries_map_dom(r, k);
        let j = choose|j: int| 0 <= j < r.len() && r[j].0 == k;
        lemma_entries_map_unique(r, j);
        if j != i {
            lemma_entries_map_unique(s, j);
        }
    }
    assert(entries_map(r) =~= m);
}

} // verus!

verus! {

/// Rewrites the value of each entry from its key and value.
pub open spec fn map_entries<K, V, W>(s: Seq<(K, V)>, f: spec_fn(K, V) -> W) -> Seq<(K, W)> {
    s.map_values(|e: (K, V)| (e.0, f(e.0, e.1)))
}

/// Rewriting every entry rewrites every value of the map.
pub proof fn lemma_entries_map_map_entries<K, V, W>(s: Seq<(K, V)>, f: spec_fn(K, V) -> W)
    ensures
        entries_map(map_entries(s, f)) == Map::new(
            |k: K| entries_map(s).contains_key(k),
            |k: K| f(k, entries_map(s)[k]),
        ),
    decreases s.len(),
{
    let m = Map::new(|k: K| entries_map(s).contains_key(k), |k: K| f(k, entries_map(s)[k]));
    if s.len() == 0 {
        assert(entries_map(map_entries(s, f)) =~= m);
    } else {
        let t = s.drop_last();
        lemma_entries_map_map_entries(t, f);
        assert(map_entries(s, f).drop_last() =~= map_entries(t, f));
        assert(entries_map(map_entries(s, f)) =~= m);
    }
}

} // verus!
