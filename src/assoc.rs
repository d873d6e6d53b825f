use vstd::prelude::*;

verus! {

/// No two entries share a key.
pub open spec fn unique_keys<V>(s: Seq<(String, V)>) -> bool {
    forall|i: int, j: int|
        0 <= i < s.len() && 0 <= j < s.len() && i != j ==> (#[trigger] s[i]).0@ != (
        #[trigger] s[j]).0@
}

/// Some entry has key `k`.
pub open spec fn has_key<V>(s: Seq<(String, V)>, k: Seq<char>) -> bool {
    exists|i: int| 0 <= i < s.len() && (#[trigger] s[i]).0@ == k
}

/// The map from each key to the view `f` of its value.
pub open spec fn assoc_map<V, W>(s: Seq<(String, V)>, f: spec_fn(V) -> W) -> Map<Seq<char>, W> {
    Map::new(
        |k: Seq<char>| has_key(s, k),
        |k: Seq<char>| f(s[choose|i: int| 0 <= i < s.len() && (#[trigger] s[i]).0@ == k].1),
    )
}

/// The entry at `j` gives its key's value in the map.
pub proof fn lemma_assoc_at<V, W>(s: Seq<(String, V)>, f: spec_fn(V) -> W, j: int)
    requires
        unique_keys(s),
        0 <= j < s.len(),
    ensures
        assoc_map(s, f).contains_key(s[j].0@),
        assoc_map(s, f)[s[j].0@] == f(s[j].1),
{
    let k = s[j].0@;
    assert(has_key(s, k));
    let i = choose|i: int| 0 <= i < s.len() && (#[trigger] s[i]).0@ == k;
    assert(i == j);
}

/// Replacing the value of the entry at `j` replaces it in the map.
pub proof fn lemma_assoc_update<V, W>(s: Seq<(String, V)>, f: spec_fn(V) -> W, j: int, e: (String, V))
    requires
        unique_keys(s),
        0 <= j < s.len(),
        e.0@ == s[j].0@,
    ensures
        unique_keys(s.update(j, e)),
        assoc_map(s.update(j, e), f) == assoc_map(s, f).insert(e.0@, f(e.1)),
{
    let t = s.update(j, e);
    assert(unique_keys(t)) by {
        assert forall|a: int, b: int|
            0 <= a < t.len() && 0 <= b < t.len() && a != b implies (#[trigger] t[a]).0@ != (
            #[trigger] t[b]).0@ by {
            assert(s[a].0@ != s[b].0@);
        }
    }
    let m = assoc_map(s, f).insert(e.0@, f(e.1));
    assert forall|k: Seq<char>| #[trigger] assoc_map(t, f).contains_key(k) == m.contains_key(k) by {
        if has_key(t, k) {
            let i = choose|i: int| 0 <= i < t.len() && (#[trigger] t[i]).0@ == k;
            if i != j {
                assert(s[i].0@ == k);
            }
        }
        if has_key(s, k) {
            let i = choose|i: int| 0 <= i < s.len() && (#[trigger] s[i]).0@ == k;
            if i != j {
                assert(t[i].0@ == k);
            } else {
                assert(t[j].0@ == k);
            }
        }
        if k == e.0@ {
            assert(t[j].0@ == k);
        }
    }
    assert forall|k: Seq<char>| #[trigger] assoc_map(t, f).contains_key(k) implies assoc_map(t, f)[k]
        == m[k] by {
        let i = choose|i: int| 0 <= i < t.len() && (#[trigger] t[i]).0@ == k;
        lemma_assoc_at(t, f, i);
        if i != j {
            lemma_assoc_at(s, f, i);
        }
    }
    assert(assoc_map(t, f) =~= m);
}

/// Adding an entry with a new key adds it to the map.
pub proof fn lemma_assoc_push<V, W>(s: Seq<(String, V)>, f: spec_fn(V) -> W, e: (String, V))
    requires
        unique_keys(s),
        !has_key(s, e.0@),
    ensures
        unique_keys(s.push(e)),
        assoc_map(s.push(e), f) == assoc_map(s, f).insert(e.0@, f(e.1)),
{
    let t = s.push(e);
    let n = s.len() as int;
    assert(unique_keys(t)) by {
        assert forall|a: int, b: int|
            0 <= a < t.len() && 0 <= b < t.len() && a != b implies (#[trigger] t[a]).0@ != (
            #[trigger] t[b]).0@ by {
            if a < n && b < n {
                assert(s[a].0@ != s[b].0@);
            } else if a < n {
                assert(s[a] == t[a]);
            } else {
                assert(s[b] == t[b]);
            }
        }
    }
    let m = assoc_map(s, f).insert(e.0@, f(e.1));
    assert forall|k: Seq<char>| #[trigger] assoc_map(t, f).contains_key(k) == m.contains_key(k) by {
        if has_key(t, k) {
            let i = choose|i: int| 0 <= i < t.len() && (#[trigger] t[i]).0@ == k;
            if i != n {
                assert(s[i].0@ == k);
            }
        }
        if has_key(s, k) {
            let i = choose|i: int| 0 <= i < s.len() && (#[trigger] s[i]).0@ == k;
            assert(t[i].0@ == k);
        }
        if k == e.0@ {
            assert(t[n].0@ == k);
        }
    }
    assert forall|k: Seq<char>| #[trigger] assoc_map(t, f).contains_key(k) implies assoc_map(t, f)[k]
        == m[k] by {
        let i = choose|i: int| 0 <= i < t.len() && (#[trigger] t[i]).0@ == k;
        lemma_assoc_at(t, f, i);
        if i != n {
            assert(s[i] == t[i]);
            lemma_assoc_at(s, f, i);
        }
    }
    assert(assoc_map(t, f) =~= m);
}

/// The keys of the entries, in order.
pub open spec fn keys_of<V>(s: Seq<(String, V)>) -> Seq<Seq<char>> {
    s.map_values(|e: (String, V)| e.0@)
}

/// The map has one key for each entry.
pub proof fn lemma_assoc_len<V, W>(s: Seq<(String, V)>, f: spec_fn(V) -> W)
    requires
        unique_keys(s),
    ensures
        assoc_map(s, f).dom() == keys_of(s).to_set(),
        assoc_map(s, f).dom().finite(),
        assoc_map(s, f).len() == s.len(),
{
    let ks = keys_of(s);
    assert forall|k: Seq<char>| #[trigger] assoc_map(s, f).dom().contains(k) == ks.to_set().contains(k) by {
        if has_key(s, k) {
            let i = choose|i: int| 0 <= i < s.len() && (#[trigger] s[i]).0@ == k;
            assert(ks[i] == k);
        }
        if ks.contains(k) {
            let i = choose|i: int| 0 <= i < ks.len() && ks[i] == k;
            assert(s[i].0@ == k);
        }
    }
    assert(assoc_map(s, f).dom() =~= ks.to_set());
    assert(ks.no_duplicates()) by {
        assert forall|i: int, j: int| 0 <= i < ks.len() && 0 <= j < ks.len() && i != j implies ks[i]
            != ks[j] by {
            assert(s[i].0@ != s[j].0@);
        }
    }
    ks.unique_seq_to_set();
}

/// The position of the entry with key `key`, if there is one.
pub fn find_key<V>(entries: &Vec<(String, V)>, key: &String) -> (r: Option<usize>)
    ensures
        match r {
            Some(j) => j < entries@.len() && entries@[j as int].0@ == key@,
            None => !has_key(entries@, key@),
        },
{
    let mut i: usize = 0;
    while i < entries.len()
        invariant
            0 <= i <= entries@.len(),
            forall|k: int| 0 <= k < i ==> (#[trigger] entries@[k]).0@ != key@,
        decreases entries@.len() - i,
    {
        if entries[i].0 == *key {
            return Some(i);
        }
        i = i + 1;
    }
    None
}

} // verus!
