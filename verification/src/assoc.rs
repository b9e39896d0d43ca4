//! Keyed collections held as vectors of `(key, value)` pairs.
//!
//! A lookup finds the first pair under a key; an insertion replaces the value of
//! that pair or appends a new one. Seen through `assoc_map`, such a vector is a
//! finite map and an insertion is `Map::insert`.
use vstd::prelude::*;
use crate::text::str_eq;

verus! {

/// The keys of the pairs, as character sequences.
pub open spec fn keys_of<T>(s: Seq<(String, T)>) -> Seq<Seq<char>> {
    s.map_values(|e: (String, T)| e.0@)
}

/// Position of the first occurrence of `k` in `ks`, or -1.
pub open spec fn first_pos(ks: Seq<Seq<char>>, k: Seq<char>) -> int
    decreases ks.len(),
{
    if ks.len() == 0 {
        -1
    } else if ks[0] == k {
        0
    } else {
        let r = first_pos(ks.subrange(1, ks.len() as int), k);
        if r < 0 {
            -1
        } else {
            r + 1
        }
    }
}

/// Position of the first pair under `k`, or -1.
pub open spec fn assoc_pos<T>(s: Seq<(String, T)>, k: Seq<char>) -> int {
    first_pos(keys_of(s), k)
}

/// The value of the first pair under `k`.
pub open spec fn assoc_get<T>(s: Seq<(String, T)>, k: Seq<char>) -> Option<T> {
    let i = assoc_pos(s, k);
    if 0 <= i < s.len() {
        Some(s[i].1)
    } else {
        None
    }
}

/// The pairs as a finite map from key text to the value of the first pair.
pub open spec fn assoc_map<T>(s: Seq<(String, T)>) -> Map<Seq<char>, T> {
    Map::new(|k: Seq<char>| assoc_pos(s, k) >= 0, |k: Seq<char>| s[assoc_pos(s, k)].1)
}

/// The pairs after binding `k` to `v`.
pub open spec fn assoc_set<T>(s: Seq<(String, T)>, k: String, v: T) -> Seq<(String, T)> {
    let i = assoc_pos(s, k@);
    if 0 <= i < s.len() {
        s.update(i, (k, v))
    } else {
        s.push((k, v))
    }
}

/// The properties of `first_pos`.
pub proof fn lemma_first_pos(ks: Seq<Seq<char>>, k: Seq<char>)
    ensures
        -1 <= first_pos(ks, k) < ks.len(),
        first_pos(ks, k) >= 0 ==> ks[first_pos(ks, k)] == k,
        forall|j: int| 0 <= j < first_pos(ks, k) ==> ks[j] != k,
        first_pos(ks, k) < 0 ==> forall|j: int| 0 <= j < ks.len() ==> ks[j] != k,
        first_pos(ks, k) < 0 <==> !ks.contains(k),
    decreases ks.len(),
{
    if ks.len() > 0 && ks[0] != k {
        let t = ks.subrange(1, ks.len() as int);
        lemma_first_pos(t, k);
        assert forall|j: int| 1 <= j < ks.len() implies ks[j] == t[j - 1] by {}
        if t.contains(k) {
            let j = choose|j: int| 0 <= j < t.len() && t[j] == k;
            assert(ks[j + 1] == k);
        }
    }
    if first_pos(ks, k) >= 0 {
        assert(ks[first_pos(ks, k)] == k);
    }
}

/// `first_pos` is the unique first match.
pub proof fn lemma_first_pos_is(ks: Seq<Seq<char>>, k: Seq<char>, i: int)
    requires
        -1 <= i < ks.len(),
        i >= 0 ==> ks[i] == k,
        forall|j: int| 0 <= j < i ==> ks[j] != k,
        i < 0 ==> forall|j: int| 0 <= j < ks.len() ==> ks[j] != k,
    ensures
        first_pos(ks, k) == i,
{
    lemma_first_pos(ks, k);
    let p = first_pos(ks, k);
    if p >= 0 && i >= 0 {
        if p < i {
            assert(ks[p] != k);
        }
        if i < p {
            assert(ks[i] != k);
        }
    }
    if p >= 0 && i < 0 {
        assert(ks[p] != k);
    }
    if p < 0 && i >= 0 {
        assert(ks[i] != k);
    }
}

/// The properties of `assoc_pos`.
pub proof fn lemma_assoc_pos<T>(s: Seq<(String, T)>, k: Seq<char>)
    ensures
        -1 <= assoc_pos(s, k) < s.len(),
        assoc_pos(s, k) >= 0 ==> s[assoc_pos(s, k)].0@ == k,
        forall|j: int| 0 <= j < assoc_pos(s, k) ==> s[j].0@ != k,
        assoc_pos(s, k) < 0 ==> forall|j: int| 0 <= j < s.len() ==> s[j].0@ != k,
{
    assert forall|j: int| 0 <= j < s.len() implies keys_of(s)[j] == (#[trigger] s[j]).0@ by {}
    assert(keys_of(s).len() == s.len());
    lemma_first_pos(keys_of(s), k);
}

/// `assoc_pos` is the unique first match.
pub proof fn lemma_assoc_pos_is<T>(s: Seq<(String, T)>, k: Seq<char>, i: int)
    requires
        -1 <= i < s.len(),
        i >= 0 ==> s[i].0@ == k,
        forall|j: int| 0 <= j < i ==> s[j].0@ != k,
        i < 0 ==> forall|j: int| 0 <= j < s.len() ==> s[j].0@ != k,
    ensures
        assoc_pos(s, k) == i,
{
    assert forall|j: int| 0 <= j < s.len() implies keys_of(s)[j] == (#[trigger] s[j]).0@ by {}
    assert(keys_of(s).len() == s.len());
    lemma_first_pos_is(keys_of(s), k, i);
}

/// Binding a key is `Map::insert` on the map view.
pub proof fn lemma_assoc_set<T>(s: Seq<(String, T)>, k: String, v: T)
    ensures
        assoc_map(assoc_set(s, k, v)) == assoc_map(s).insert(k@, v),
        assoc_pos(assoc_set(s, k, v), k@) >= 0,
{
    let r = assoc_set(s, k, v);
    lemma_assoc_pos(s, k@);
    let i = assoc_pos(s, k@);
    if i >= 0 {
        lemma_assoc_pos_is(r, k@, i);
    } else {
        lemma_assoc_pos_is(r, k@, s.len() as int);
    }
    assert forall|k2: Seq<char>| k2 != k@ implies #[trigger] assoc_pos(r, k2) == assoc_pos(s, k2)
        && (assoc_pos(s, k2) >= 0 ==> r[assoc_pos(s, k2)] == s[assoc_pos(s, k2)]) by {
        lemma_assoc_pos(s, k2);
        lemma_assoc_pos_is(r, k2, assoc_pos(s, k2));
    }
    lemma_assoc_pos(r, k@);
    assert(r[assoc_pos(r, k@)].1 == v);
    assert(assoc_map(r) =~= assoc_map(s).insert(k@, v));
}

/// Binding a key keeps the keys free of repeats.
pub proof fn lemma_assoc_set_distinct<T>(s: Seq<(String, T)>, k: String, v: T)
    requires
        keys_of(s).no_duplicates(),
    ensures
        keys_of(assoc_set(s, k, v)).no_duplicates(),
{
    lemma_assoc_pos(s, k@);
    let i = assoc_pos(s, k@);
    let r = assoc_set(s, k, v);
    if i >= 0 {
        assert(keys_of(r) =~= keys_of(s));
    } else {
        assert(keys_of(r) =~= keys_of(s).push(k@));
        assert forall|a: int, b: int| 0 <= a < keys_of(r).len() && 0 <= b < keys_of(r).len() && a != b
            implies keys_of(r)[a] != keys_of(r)[b] by {
            if a < s.len() && b < s.len() {
                assert(keys_of(s)[a] != keys_of(s)[b]);
            } else if a < s.len() {
                assert(s[a].0@ != k@);
            } else {
                assert(s[b].0@ != k@);
            }
        }
    }
}

/// The keys of the map view are those of the pairs; without repeats, there
/// are as many as pairs.
pub proof fn lemma_assoc_map_len<T>(s: Seq<(String, T)>)
    requires
        keys_of(s).no_duplicates(),
    ensures
        assoc_map(s).dom() == keys_of(s).to_set(),
        assoc_map(s).len() == s.len(),
{
    assert forall|k: Seq<char>| #[trigger] assoc_map(s).dom().contains(k) <==> keys_of(s).to_set().contains(k) by {
        lemma_first_pos(keys_of(s), k);
    }
    assert(assoc_map(s).dom() =~= keys_of(s).to_set());
    keys_of(s).unique_seq_to_set();
}

/// Pair lists with the same keys at every position have the same positions.
pub proof fn lemma_assoc_pos_same_keys<T, U>(a: Seq<(String, T)>, b: Seq<(String, U)>)
    requires
        a.len() == b.len(),
        forall|i: int| 0 <= i < a.len() ==> a[i].0@ == b[i].0@,
    ensures
        forall|k: Seq<char>| #[trigger] assoc_pos(a, k) == assoc_pos(b, k),
{
    assert forall|k: Seq<char>| #[trigger] assoc_pos(a, k) == assoc_pos(b, k) by {
        lemma_assoc_pos(a, k);
        lemma_assoc_pos_is(b, k, assoc_pos(a, k));
    }
}

/// Position of the first pair under `k`.
pub fn assoc_find<T>(v: &Vec<(String, T)>, k: &str) -> (r: Option<usize>)
    ensures
        match r {
            Some(i) => i as int == assoc_pos(v@, k@) && i < v@.len(),
            None => assoc_pos(v@, k@) == -1,
        },
{
    let mut i: usize = 0;
    while i < v.len()
        invariant
            i <= v@.len(),
            forall|j: int| 0 <= j < i ==> v@[j].0@ != k@,
        decreases v@.len() - i,
    {
        if str_eq(v[i].0.as_str(), k) {
            proof {
                lemma_assoc_pos_is(v@, k@, i as int);
            }
            return Some(i);
        }
        i = i + 1;
    }
    proof {
        lemma_assoc_pos_is(v@, k@, -1);
    }
    None
}

/// The value of the first pair under `k`.
pub fn assoc_lookup<'a, T>(v: &'a Vec<(String, T)>, k: &str) -> (r: Option<&'a T>)
    ensures
        match r {
            Some(x) => assoc_get(v@, k@) == Some(*x),
            None => assoc_get(v@, k@) is None,
        },
        r is Some <==> assoc_map(v@).contains_key(k@),
        r matches Some(x) ==> assoc_map(v@)[k@] == *x,
{
    match assoc_find(v, k) {
        Some(i) => Some(&v[i].1),
        None => None,
    }
}

/// Whether some pair is under `k`.
pub fn assoc_contains<T>(v: &Vec<(String, T)>, k: &str) -> (b: bool)
    ensures
        b == assoc_map(v@).contains_key(k@),
        b == (assoc_pos(v@, k@) >= 0),
{
    assoc_find(v, k).is_some()
}

/// Binds `k` to `x`: replaces the value of the first pair under `k`, or appends.
pub fn assoc_insert<T>(v: &mut Vec<(String, T)>, k: String, x: T)
    ensures
        final(v)@ == assoc_set(old(v)@, k, x),
        assoc_map(final(v)@) == assoc_map(old(v)@).insert(k@, x),
{
    proof {
        lemma_assoc_set(v@, k, x);
    }
    match assoc_find(v, k.as_str()) {
        Some(i) => {
            v.set(i, (k, x));
        },
        None => {
            v.push((k, x));
        },
    }
}

} // verus!
