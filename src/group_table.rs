//! Tables of per-group state keyed by a group name.
//!
//! A table is a list of `(key, state)` pairs; a lookup takes the first pair
//! whose key matches. Contracts speak of the table's view: each key as its
//! characters and each state as its own view.
use vstd::prelude::*;

verus! {

/// The view of a table: keys as character sequences, states as their views.
pub open spec fn table_view<S: View>(t: Seq<(String, S)>) -> Seq<(Seq<char>, S::V)> {
    t.map_values(|p: (String, S)| (p.0@, p.1@))
}

/// Index of the first entry whose key is `key`, or -1.
pub open spec fn key_index<V>(t: Seq<(Seq<char>, V)>, key: Seq<char>) -> int
    decreases t.len(),
{
    if t.len() == 0 {
        -1
    } else {
        let i = key_index(t.drop_last(), key);
        if i >= 0 {
            i
        } else if t.last().0 == key {
            t.len() - 1
        } else {
            -1
        }
    }
}

/// The state stored under `key`, if any.
pub open spec fn lookup<V>(t: Seq<(Seq<char>, V)>, key: Seq<char>) -> Option<V> {
    let i = key_index(t, key);
    if i >= 0 {
        Some(t[i].1)
    } else {
        None
    }
}

/// The table with the state under `key` replaced by `v`, or `(key, v)` added
/// at the end when the key is absent.
pub open spec fn upsert<V>(t: Seq<(Seq<char>, V)>, key: Seq<char>, v: V) -> Seq<(Seq<char>, V)> {
    let i = key_index(t, key);
    if i >= 0 {
        t.update(i, (key, v))
    } else {
        t.push((key, v))
    }
}

pub proof fn lemma_key_index_bounds<V>(t: Seq<(Seq<char>, V)>, key: Seq<char>)
    ensures
        -1 <= key_index(t, key) < t.len(),
        key_index(t, key) >= 0 ==> t[key_index(t, key)].0 == key,
        key_index(t, key) == -1 ==> forall|j: int| 0 <= j < t.len() ==> t[j].0 != key,
        key_index(t, key) >= 0 ==> forall|j: int| 0 <= j < key_index(t, key) ==> t[j].0 != key,
    decreases t.len(),
{
    if t.len() > 0 {
        lemma_key_index_bounds(t.drop_last(), key);
        let d = t.drop_last();
        assert(forall|j: int| 0 <= j < d.len() ==> #[trigger] d[j] == t[j]);
        assert(t.last() == t[t.len() - 1]);
        if key_index(t, key) >= 0 {
            assert forall|j: int| 0 <= j < key_index(t, key) implies t[j].0 != key by {
                if j < d.len() {
                    assert(d[j] == t[j]);
                }
            }
        }
        if key_index(t, key) == -1 {
            assert forall|j: int| 0 <= j < t.len() implies t[j].0 != key by {
                if j < d.len() {
                    assert(d[j] == t[j]);
                }
            }
        }
    }
}

/// An entry with the key, preceded by none, is the one a lookup finds.
pub proof fn lemma_key_index_first<V>(t: Seq<(Seq<char>, V)>, key: Seq<char>, i: int)
    requires
        0 <= i < t.len(),
        t[i].0 == key,
        forall|j: int| 0 <= j < i ==> t[j].0 != key,
    ensures
        key_index(t, key) == i,
    decreases t.len(),
{
    lemma_key_index_bounds(t, key);
    if i < t.len() - 1 {
        lemma_key_index_first(t.drop_last(), key, i);
    } else {
        lemma_key_index_bounds(t.drop_last(), key);
    }
}

/// Without an entry for `key`, the lookup finds nothing.
pub proof fn lemma_key_index_none<V>(t: Seq<(Seq<char>, V)>, key: Seq<char>)
    requires
        forall|j: int| 0 <= j < t.len() ==> t[j].0 != key,
    ensures
        key_index(t, key) == -1,
{
    lemma_key_index_bounds(t, key);
}

/// After storing `v` under `key`, a lookup of `key` finds `v`.
pub proof fn lemma_lookup_upsert<V>(t: Seq<(Seq<char>, V)>, key: Seq<char>, v: V)
    ensures
        lookup(upsert(t, key, v), key) == Some(v),
{
    lemma_key_index_bounds(t, key);
    let u = upsert(t, key, v);
    let i = key_index(t, key);
    if i >= 0 {
        lemma_key_index_first(u, key, i);
    } else {
        lemma_key_index_first(u, key, t.len() as int);
    }
}

/// The table without the entries whose key is in `keys`.
pub open spec fn without_keys<V>(t: Seq<(Seq<char>, V)>, keys: Set<Seq<char>>) -> Seq<(Seq<char>, V)>
    decreases t.len(),
{
    if t.len() == 0 {
        Seq::empty()
    } else {
        let rest = without_keys(t.drop_last(), keys);
        if keys.contains(t.last().0) {
            rest
        } else {
            rest.push(t.last())
        }
    }
}

/// Dropping keys hides exactly those keys from a lookup.
pub proof fn lemma_lookup_without<V>(t: Seq<(Seq<char>, V)>, keys: Set<Seq<char>>, k: Seq<char>)
    ensures
        lookup(without_keys(t, keys), k) == if keys.contains(k) {
            None
        } else {
            lookup(t, k)
        },
    decreases t.len(),
{
    if t.len() > 0 {
        let d = t.drop_last();
        let w = without_keys(d, keys);
        lemma_lookup_without(d, keys, k);
        lemma_key_index_bounds(d, k);
        lemma_key_index_bounds(w, k);
        lemma_key_index_bounds(t, k);
        if !keys.contains(t.last().0) {
            let u = w.push(t.last());
            lemma_key_index_bounds(u, k);
            assert(u.drop_last() =~= w);
        }
    }
}

/// Dropping two key sets in turn drops their union.
pub proof fn lemma_without_twice<V>(t: Seq<(Seq<char>, V)>, a: Set<Seq<char>>, b: Set<Seq<char>>)
    ensures
        without_keys(without_keys(t, a), b) == without_keys(t, a.union(b)),
    decreases t.len(),
{
    if t.len() > 0 {
        lemma_without_twice(t.drop_last(), a, b);
        let w = without_keys(t.drop_last(), a);
        if !a.contains(t.last().0) {
            assert(w.push(t.last()).drop_last() =~= w);
        }
    }
}

/// No two entries share a key.
pub open spec fn keys_unique<V>(t: Seq<(Seq<char>, V)>) -> bool {
    forall|i: int, j: int| 0 <= i < j < t.len() ==> t[i].0 != t[j].0
}

/// With unique keys, the entry a lookup finds is the only one with its key.
pub proof fn lemma_unique_lookup<V>(t: Seq<(Seq<char>, V)>, i: int)
    requires
        keys_unique(t),
        0 <= i < t.len(),
    ensures
        key_index(t, t[i].0) == i,
{
    lemma_key_index_first(t, t[i].0, i);
}

/// Storing under a key keeps keys unique.
pub proof fn lemma_upsert_unique<V>(t: Seq<(Seq<char>, V)>, key: Seq<char>, v: V)
    requires
        keys_unique(t),
    ensures
        keys_unique(upsert(t, key, v)),
{
    lemma_key_index_bounds(t, key);
}

/// Storing under any key keeps keys unique.
pub proof fn lemma_upsert_unique_all<V>(t: Seq<(Seq<char>, V)>)
    requires
        keys_unique(t),
    ensures
        forall|key: Seq<char>, v: V| #[trigger] keys_unique(upsert(t, key, v)),
{
    assert forall|key: Seq<char>, v: V| #[trigger] keys_unique(upsert(t, key, v)) by {
        lemma_upsert_unique(t, key, v);
    }
}

/// Dropping keys keeps keys unique.
pub proof fn lemma_without_unique<V>(t: Seq<(Seq<char>, V)>, keys: Set<Seq<char>>)
    requires
        keys_unique(t),
    ensures
        keys_unique(without_keys(t, keys)),
        forall|i: int|
            0 <= i < without_keys(t, keys).len() ==> exists|j: int|
                0 <= j < t.len() && #[trigger] without_keys(t, keys)[i] == t[j],
    decreases t.len(),
{
    if t.len() > 0 {
        let d = t.drop_last();
        assert forall|i: int, j: int| 0 <= i < j < d.len() implies d[i].0 != d[j].0 by {
            assert(d[i] == t[i] && d[j] == t[j]);
        }
        lemma_without_unique(d, keys);
        let w = without_keys(d, keys);
        assert forall|i: int| 0 <= i < w.len() implies exists|j: int|
            0 <= j < t.len() && #[trigger] w[i] == t[j] by {
            let j = choose|j: int| 0 <= j < d.len() && w[i] == d[j];
            assert(d[j] == t[j]);
        }
        if !keys.contains(t.last().0) {
            let u = w.push(t.last());
            assert forall|i: int, j: int| 0 <= i < j < u.len() implies u[i].0 != u[j].0 by {
                if j == u.len() - 1 {
                    let k = choose|k: int| 0 <= k < d.len() && w[i] == d[k];
                    assert(d[k] == t[k]);
                }
            }
            assert forall|i: int| 0 <= i < u.len() implies exists|j: int|
                0 <= j < t.len() && #[trigger] u[i] == t[j] by {
                if i == u.len() - 1 {
                    assert(u[i] == t[t.len() - 1]);
                } else {
                    assert(u[i] == w[i]);
                }
            }
        }
    }
}

/// Finds the first entry whose key is `key`.
pub fn find_key<S: View>(t: &Vec<(String, S)>, key: &String) -> (r: Option<usize>)
    ensures
        r matches Some(i) ==> i < t@.len() && i as int == key_index(table_view(t@), key@),
        r is None ==> key_index(table_view(t@), key@) == -1,
{
    let ghost tv = table_view(t@);
    let mut i: usize = 0;
    while i < t.len()
        invariant
            0 <= i <= t.len(),
            tv == table_view(t@),
            forall|j: int| 0 <= j < i ==> tv[j].0 != key@,
        decreases t.len() - i,
    {
        if t[i].0.eq(key) {
            proof {
                lemma_key_index_first(tv, key@, i as int);
            }
            return Some(i);
        }
        i = i + 1;
    }
    proof {
        lemma_key_index_none(tv, key@);
    }
    None
}


/// The table without the entries whose key is `key`.
pub fn remove_key<S: View>(t: &mut Vec<(String, S)>, key: &String)
    ensures
        table_view(final(t)@) == without_keys(table_view(old(t)@), set![key@]),
{
    let ghost tv = table_view(t@);
    let mut kept: Vec<(String, S)> = Vec::new();
    let n = t.len();
    let mut j: usize = 0;
    let ghost orig = t@;
    while t.len() > 0
        invariant
            t@.len() + j == n,
            n == orig.len(),
            t@ == orig.subrange(j as int, n as int),
            tv == table_view(orig),
            table_view(kept@) == without_keys(tv.subrange(0, j as int), set![key@]),
        decreases t.len(),
    {
        let e = t.remove(0);
        assert(tv.subrange(0, j as int + 1).drop_last() =~= tv.subrange(0, j as int));
        assert(tv.subrange(0, j as int + 1).last() == tv[j as int]);
        assert(orig[j as int] == e);
        let ghost before = kept@;
        if !e.0.eq(key) {
            kept.push(e);
            assert(table_view(kept@) =~= table_view(before).push(tv[j as int]));
        }
        assert(t@ =~= orig.subrange(j as int + 1, n as int));
        j = j + 1;
    }
    assert(tv.subrange(0, n as int) =~= tv);
    *t = kept;
}

} // verus!
