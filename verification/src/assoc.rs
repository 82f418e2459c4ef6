//! Association-list semantics shared by the keyed containers of the
//! pipeline (the fingerprint store and the module table): a sequence of
//! key/value pairs denotes the map in which later entries win, and a
//! container keeps its keys distinct.

use vstd::prelude::*;

verus! {

/// The map denoted by an association list; a later entry overrides an
/// earlier one with the same key.
pub open spec fn assoc_map<K, V>(s: Seq<(K, V)>) -> Map<K, V>
    decreases s.len(),
{
    if s.len() == 0 {
        Map::empty()
    } else {
        assoc_map(s.drop_last()).insert(s.last().0, s.last().1)
    }
}

/// No two entries share a key.
pub open spec fn distinct_keys<K, V>(s: Seq<(K, V)>) -> bool {
    forall|i: int, j: int| 0 <= i < j < s.len() ==> s[i].0 != s[j].0
}

/// A key is in the map exactly when some entry carries it.
pub proof fn lemma_assoc_map_membership<K, V>(s: Seq<(K, V)>, k: K)
    ensures
        assoc_map(s).contains_key(k) <==> exists|i: int| 0 <= i < s.len() && s[i].0 == k,
    decreases s.len(),
{
    if s.len() > 0 {
        let t = s.drop_last();
        lemma_assoc_map_membership(t, k);
        assert(forall|i: int| 0 <= i < t.len() ==> t[i] == s[i]);
        if s.last().0 == k {
            assert(s[s.len() - 1].0 == k);
        } else if assoc_map(s).contains_key(k) {
            let i = choose|i: int| 0 <= i < t.len() && t[i].0 == k;
            assert(s[i].0 == k);
        } else if exists|i: int| 0 <= i < s.len() && s[i].0 == k {
            let i = choose|i: int| 0 <= i < s.len() && s[i].0 == k;
            assert(t[i].0 == k);
        }
    }
}

/// Under distinct keys, each entry gives the value the map takes on its key.
pub proof fn lemma_assoc_map_index<K, V>(s: Seq<(K, V)>, i: int)
    requires
        distinct_keys(s),
        0 <= i < s.len(),
    ensures
        assoc_map(s).contains_key(s[i].0),
        assoc_map(s)[s[i].0] == s[i].1,
    decreases s.len(),
{
    let t = s.drop_last();
    if i < s.len() - 1 {
        assert(forall|a: int| 0 <= a < t.len() ==> t[a] == s[a]);
        lemma_assoc_map_index(t, i);
        assert(s.last().0 != s[i].0);
    }
}

/// Appending an entry is map insertion.
pub proof fn lemma_assoc_map_push<K, V>(s: Seq<(K, V)>, p: (K, V))
    ensures
        assoc_map(s.push(p)) == assoc_map(s).insert(p.0, p.1),
{
    assert(s.push(p).drop_last() =~= s);
    assert(s.push(p).last() == p);
}

/// Overwriting the entry that holds a key is map insertion on that key.
pub proof fn lemma_assoc_map_update<K, V>(s: Seq<(K, V)>, i: int, v: V)
    requires
        distinct_keys(s),
        0 <= i < s.len(),
    ensures
        assoc_map(s.update(i, (s[i].0, v))) == assoc_map(s).insert(s[i].0, v),
    decreases s.len(),
{
    let k = s[i].0;
    let u = s.update(i, (k, v));
    let t = s.drop_last();
    if i == s.len() - 1 {
        assert(u.drop_last() =~= t);
        assert(u.last() == (k, v));
        assert(assoc_map(t).insert(k, s[i].1).insert(k, v) =~= assoc_map(t).insert(k, v));
    } else {
        assert(forall|a: int| 0 <= a < t.len() ==> t[a] == s[a]);
        lemma_assoc_map_update(t, i, v);
        assert(u.drop_last() =~= t.update(i, (k, v)));
        assert(u.last() == s.last());
        assert(s.last().0 != k);
        assert(assoc_map(t).insert(k, v).insert(s.last().0, s.last().1) =~= assoc_map(t).insert(
            s.last().0,
            s.last().1,
        ).insert(k, v));
    }
}

/// Removing the entry that holds a key removes the key, and keeps the
/// remaining keys distinct.
pub proof fn lemma_assoc_map_remove<K, V>(s: Seq<(K, V)>, i: int)
    requires
        distinct_keys(s),
        0 <= i < s.len(),
    ensures
        assoc_map(s.remove(i)) == assoc_map(s).remove(s[i].0),
        distinct_keys(s.remove(i)),
    decreases s.len(),
{
    let k = s[i].0;
    let t = s.drop_last();
    assert(forall|a: int| 0 <= a < t.len() ==> t[a] == s[a]);
    assert(forall|a: int|
        0 <= a < s.remove(i).len() ==> s.remove(i)[a] == (if a < i {
            s[a]
        } else {
            s[a + 1]
        }));
    if i == s.len() - 1 {
        assert(s.remove(i) =~= t);
        lemma_assoc_map_membership(t, k);
        assert(!assoc_map(t).contains_key(k));
        assert(assoc_map(t).insert(k, s[i].1).remove(k) =~= assoc_map(t));
    } else {
        lemma_assoc_map_remove(t, i);
        assert(s.remove(i).drop_last() =~= t.remove(i));
        assert(s.remove(i).last() == s.last());
        assert(assoc_map(s.remove(i)) == assoc_map(t).remove(k).insert(s.last().0, s.last().1));
        assert(s.last().0 != k);
        assert(assoc_map(t).remove(k).insert(s.last().0, s.last().1) =~= assoc_map(t).insert(
            s.last().0,
            s.last().1,
        ).remove(k));
    }
}

/// Under distinct keys the map has exactly one element per entry.
pub proof fn lemma_assoc_map_len<K, V>(s: Seq<(K, V)>)
    requires
        distinct_keys(s),
    ensures
        assoc_map(s).dom().finite(),
        assoc_map(s).dom().len() == s.len(),
    decreases s.len(),
{
    broadcast use vstd::set::axiom_set_insert_len, vstd::set::axiom_set_insert_finite, vstd::set::axiom_set_empty_len, vstd::set::axiom_set_empty_finite;

    if s.len() > 0 {
        let t = s.drop_last();
        assert(forall|a: int| 0 <= a < t.len() ==> t[a] == s[a]);
        lemma_assoc_map_len(t);
        lemma_assoc_map_membership(t, s.last().0);
        assert(forall|a: int| 0 <= a < t.len() ==> t[a].0 != s.last().0);
    }
}

} // verus!
