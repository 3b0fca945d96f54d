//! Vectors of `(key, value)` entries used as small maps: each key occurs at
//! most once, and the entries are read as a `Map` in contracts.

use vstd::prelude::*;

verus! {

/// No key occurs twice among the entries.
pub open spec fn keys_distinct<K, V>(s: Seq<(K, V)>) -> bool {
    forall|i: int, j: int|
        0 <= i < s.len() && 0 <= j < s.len() && i != j ==> #[trigger] s[i].0 != #[trigger] s[j].0
}

/// Some entry has the key `k`.
pub open spec fn has_key<K, V>(s: Seq<(K, V)>, k: K) -> bool {
    exists|i: int| 0 <= i < s.len() && #[trigger] s[i].0 == k
}

/// The map that the entries stand for.
pub open spec fn entries_view<K, V>(s: Seq<(K, V)>) -> Map<K, V> {
    Map::new(
        |k: K| has_key(s, k),
        |k: K| s[choose|i: int| 0 <= i < s.len() && #[trigger] s[i].0 == k].1,
    )
}

pub proof fn lemma_entries_view_index<K, V>(s: Seq<(K, V)>, i: int)
    requires
        keys_distinct(s),
        0 <= i < s.len(),
    ensures
        entries_view(s).contains_key(s[i].0),
        entries_view(s)[s[i].0] == s[i].1,
{
    let k = s[i].0;
    assert(has_key(s, k));
    let j = choose|j: int| 0 <= j < s.len() && #[trigger] s[j].0 == k;
    assert(j == i);
}

/// Every entry is read by the view at its own key.
pub proof fn lemma_entries_view_all<K, V>(s: Seq<(K, V)>)
    requires
        keys_distinct(s),
    ensures
        forall|i: int|
            0 <= i < s.len() ==> entries_view(s).contains_key(#[trigger] s[i].0) && entries_view(
                s,
            )[s[i].0] == s[i].1,
        entries_view(s).dom() == s.map_values(|e: (K, V)| e.0).to_set(),
{
    assert forall|i: int| 0 <= i < s.len() implies entries_view(s).contains_key(
        #[trigger] s[i].0,
    ) && entries_view(s)[s[i].0] == s[i].1 by {
        lemma_entries_view_index(s, i);
    }
    let ks = s.map_values(|e: (K, V)| e.0);
    assert forall|k: K| entries_view(s).dom().contains(k) <==> ks.to_set().contains(k) by {
        if entries_view(s).dom().contains(k) {
            let i = choose|i: int| 0 <= i < s.len() && #[trigger] s[i].0 == k;
            assert(ks[i] == k);
        }
        if ks.to_set().contains(k) {
            let i = choose|i: int| 0 <= i < ks.len() && ks[i] == k;
            assert(s[i].0 == k);
        }
    }
    assert(entries_view(s).dom() =~= ks.to_set());
}

pub proof fn lemma_entries_push<K, V>(s: Seq<(K, V)>, k: K, v: V)
    requires
        keys_distinct(s),
        !has_key(s, k),
    ensures
        keys_distinct(s.push((k, v))),
        entries_view(s.push((k, v))) == entries_view(s).insert(k, v),
{
    let t = s.push((k, v));
    assert(keys_distinct(t)) by {
        assert forall|i: int, j: int|
            0 <= i < t.len() && 0 <= j < t.len() && i != j implies #[trigger] t[i].0
            != #[trigger] t[j].0 by {
            if i == s.len() as int {
                assert(t[j] == s[j]);
            } else if j == s.len() as int {
                assert(t[i] == s[i]);
            } else {
                assert(t[i] == s[i] && t[j] == s[j]);
            }
        }
    }
    lemma_entries_view_all(s);
    lemma_entries_view_all(t);
    assert forall|key: K| #[trigger] has_key(t, key) <==> (has_key(s, key) || key == k) by {
        if has_key(s, key) {
            let i = choose|i: int| 0 <= i < s.len() && #[trigger] s[i].0 == key;
            assert(t[i] == s[i]);
        }
        if key == k {
            assert(t[s.len() as int].0 == k);
        }
        if has_key(t, key) && key != k {
            let i = choose|i: int| 0 <= i < t.len() && #[trigger] t[i].0 == key;
            assert(i < s.len());
            assert(s[i] == t[i]);
        }
    }
    assert forall|key: K| #[trigger] entries_view(t).contains_key(key) implies entries_view(t)[key]
        == entries_view(s).insert(k, v)[key] by {
        let i = choose|i: int| 0 <= i < t.len() && #[trigger] t[i].0 == key;
        if i < s.len() {
            assert(t[i] == s[i]);
        }
    }
    assert(entries_view(t) =~= entries_view(s).insert(k, v));
}

pub proof fn lemma_entries_update<K, V>(s: Seq<(K, V)>, i: int, v: V)
    requires
        keys_distinct(s),
        0 <= i < s.len(),
    ensures
        keys_distinct(s.update(i, (s[i].0, v))),
        entries_view(s.update(i, (s[i].0, v))) == entries_view(s).insert(s[i].0, v),
{
    let t = s.update(i, (s[i].0, v));
    assert(keys_distinct(t)) by {
        assert forall|a: int, b: int|
            0 <= a < t.len() && 0 <= b < t.len() && a != b implies #[trigger] t[a].0
            != #[trigger] t[b].0 by {
            assert(t[a].0 == s[a].0 && t[b].0 == s[b].0);
        }
    }
    lemma_entries_view_all(s);
    lemma_entries_view_all(t);
    assert forall|key: K| #[trigger] has_key(t, key) <==> has_key(s, key) by {
        if has_key(s, key) {
            let j = choose|j: int| 0 <= j < s.len() && #[trigger] s[j].0 == key;
            assert(t[j].0 == key);
        }
        if has_key(t, key) {
            let j = choose|j: int| 0 <= j < t.len() && #[trigger] t[j].0 == key;
            assert(s[j].0 == key);
        }
    }
    assert forall|key: K| #[trigger] entries_view(t).contains_key(key) implies entries_view(t)[key]
        == entries_view(s).insert(s[i].0, v)[key] by {
        let j = choose|j: int| 0 <= j < t.len() && #[trigger] t[j].0 == key;
        if j != i {
            assert(t[j] == s[j]);
        }
    }
    assert(entries_view(t) =~= entries_view(s).insert(s[i].0, v));
}

/// Replacing the value of one entry replaces it in the view.
pub broadcast proof fn lemma_entries_update_view<K, V>(s: Seq<(K, V)>, i: int, v: V)
    requires
        keys_distinct(s),
        0 <= i < s.len(),
    ensures
        #[trigger] entries_view(s.update(i, (s[i].0, v))) == entries_view(s).insert(s[i].0, v),
        keys_distinct(s.update(i, (s[i].0, v))),
{
    lemma_entries_update(s, i, v);
}

pub proof fn lemma_entries_remove<K, V>(s: Seq<(K, V)>, i: int)
    requires
        keys_distinct(s),
        0 <= i < s.len(),
    ensures
        keys_distinct(s.remove(i)),
        entries_view(s.remove(i)) == entries_view(s).remove(s[i].0),
{
    let t = s.remove(i);
    assert(forall|j: int| 0 <= j < i ==> t[j] == s[j]);
    assert(forall|j: int| i <= j < t.len() ==> t[j] == s[j + 1]);
    assert(keys_distinct(t)) by {
        assert forall|a: int, b: int|
            0 <= a < t.len() && 0 <= b < t.len() && a != b implies #[trigger] t[a].0
            != #[trigger] t[b].0 by {
            let a2 = if a < i {
                a
            } else {
                a + 1
            };
            let b2 = if b < i {
                b
            } else {
                b + 1
            };
            assert(t[a] == s[a2] && t[b] == s[b2]);
        }
    }
    lemma_entries_view_all(s);
    lemma_entries_view_all(t);
    assert forall|key: K| #[trigger] has_key(t, key) <==> (has_key(s, key) && key != s[i].0) by {
        if has_key(s, key) && key != s[i].0 {
            let j = choose|j: int| 0 <= j < s.len() && #[trigger] s[j].0 == key;
            if j < i {
                assert(t[j].0 == key);
            } else {
                assert(j > i);
                assert(t[j - 1].0 == key);
            }
        }
        if has_key(t, key) {
            let j = choose|j: int| 0 <= j < t.len() && #[trigger] t[j].0 == key;
            let j2 = if j < i {
                j
            } else {
                j + 1
            };
            assert(s[j2].0 == key);
        }
    }
    assert forall|key: K| #[trigger] entries_view(t).contains_key(key) implies entries_view(t)[key]
        == entries_view(s)[key] by {
        let j = choose|j: int| 0 <= j < t.len() && #[trigger] t[j].0 == key;
        let j2 = if j < i {
            j
        } else {
            j + 1
        };
        assert(t[j] == s[j2]);
    }
    assert(entries_view(t) =~= entries_view(s).remove(s[i].0));
}

} // verus!
