//! Association lists: a sequence of keys beside a sequence of values, read as
//! a finite map in which a later key overrides an earlier one.
use vstd::prelude::*;

verus! {

/// The map that the keys `ks` and the values `vs` spell out, position by
/// position.
pub open spec fn assoc<K, V>(ks: Seq<K>, vs: Seq<V>) -> Map<K, V>
    decreases ks.len(),
{
    if ks.len() == 0 || vs.len() == 0 {
        Map::empty()
    } else {
        assoc(ks.drop_last(), vs.drop_last()).insert(ks.last(), vs.last())
    }
}

/// No key occurs twice.
pub open spec fn keys_unique<K>(ks: Seq<K>) -> bool {
    forall|i: int, j: int| 0 <= i < ks.len() && 0 <= j < ks.len() && ks[i] == ks[j] ==> i == j
}

/// A key is in the map exactly when it occurs in the keys; with unique keys,
/// its value is the one beside it.
pub proof fn lemma_assoc_facts<K, V>(ks: Seq<K>, vs: Seq<V>)
    requires
        ks.len() == vs.len(),
    ensures
        forall|k: K| #[trigger]
            assoc(ks, vs).contains_key(k) <==> exists|i: int| 0 <= i < ks.len() && ks[i] == k,
        keys_unique(ks) ==> forall|i: int|
            0 <= i < ks.len() ==> #[trigger] assoc(ks, vs)[ks[i]] == vs[i],
    decreases ks.len(),
{
    if ks.len() > 0 {
        let ks0 = ks.drop_last();
        let vs0 = vs.drop_last();
        lemma_assoc_facts(ks0, vs0);
        assert forall|k: K| #[trigger]
            assoc(ks, vs).contains_key(k) <==> exists|i: int| 0 <= i < ks.len() && ks[i] == k by {
            if assoc(ks0, vs0).contains_key(k) {
                let i = choose|i: int| 0 <= i < ks0.len() && ks0[i] == k;
                assert(ks[i] == k);
            }
            if exists|i: int| 0 <= i < ks.len() && ks[i] == k {
                let i = choose|i: int| 0 <= i < ks.len() && ks[i] == k;
                if i < ks0.len() {
                    assert(ks0[i] == k);
                }
            }
        }
        if keys_unique(ks) {
            assert(keys_unique(ks0)) by {
                assert forall|a: int, b: int|
                    0 <= a < ks0.len() && 0 <= b < ks0.len() && ks0[a] == ks0[b] implies a == b by {
                    assert(ks[a] == ks0[a] && ks[b] == ks0[b]);
                }
            }
            assert forall|i: int| 0 <= i < ks.len() implies #[trigger] assoc(ks, vs)[ks[i]] == vs[i] by {
                assert(assoc(ks, vs) == assoc(ks0, vs0).insert(ks.last(), vs.last()));
                if i < ks0.len() {
                    assert(ks0[i] == ks[i]);
                    assert(ks[i] != ks[ks.len() - 1]);
                    assert(assoc(ks0, vs0)[ks0[i]] == vs0[i]);
                    assert(vs0[i] == vs[i]);
                }
            }
        }
    }
}

/// With unique keys, the map has one key per position.
pub proof fn lemma_assoc_len<K, V>(ks: Seq<K>, vs: Seq<V>)
    requires
        ks.len() == vs.len(),
        keys_unique(ks),
    ensures
        assoc(ks, vs).dom().finite(),
        assoc(ks, vs).dom().len() == ks.len(),
    decreases ks.len(),
{
    if ks.len() > 0 {
        let ks0 = ks.drop_last();
        let vs0 = vs.drop_last();
        assert(keys_unique(ks0)) by {
            assert forall|a: int, b: int|
                0 <= a < ks0.len() && 0 <= b < ks0.len() && ks0[a] == ks0[b] implies a == b by {
                assert(ks[a] == ks0[a] && ks[b] == ks0[b]);
            }
        }
        lemma_assoc_len(ks0, vs0);
        lemma_assoc_facts(ks0, vs0);
        if assoc(ks0, vs0).contains_key(ks.last()) {
            let i = choose|i: int| 0 <= i < ks0.len() && ks0[i] == ks.last();
            assert(ks[i] == ks[ks.len() - 1]);
        }
        assert(assoc(ks, vs).dom() == assoc(ks0, vs0).dom().insert(ks.last()));
    } else {
        assert(assoc(ks, vs).dom() =~= Set::empty());
    }
}

/// Appending a pair inserts it.
pub proof fn lemma_assoc_push<K, V>(ks: Seq<K>, vs: Seq<V>, k: K, v: V)
    requires
        ks.len() == vs.len(),
    ensures
        assoc(ks.push(k), vs.push(v)) == assoc(ks, vs).insert(k, v),
{
    assert(ks.push(k).drop_last() =~= ks);
    assert(vs.push(v).drop_last() =~= vs);
}

/// Appending a key that is not yet present keeps the keys unique.
pub proof fn lemma_assoc_push_unique<K, V>(ks: Seq<K>, vs: Seq<V>, k: K, v: V)
    requires
        ks.len() == vs.len(),
        keys_unique(ks),
        !assoc(ks, vs).contains_key(k),
    ensures
        keys_unique(ks.push(k)),
{
    lemma_assoc_facts(ks, vs);
    let ks2 = ks.push(k);
    assert forall|a: int, b: int|
        0 <= a < ks2.len() && 0 <= b < ks2.len() && ks2[a] == ks2[b] implies a == b by {
        if a < ks.len() && b < ks.len() {
            assert(ks[a] == ks2[a] && ks[b] == ks2[b]);
        } else if a < ks.len() {
            assert(ks[a] == k);
        } else if b < ks.len() {
            assert(ks[b] == k);
        }
    }
}

/// Replacing the value at a position of unique keys updates that key.
pub proof fn lemma_assoc_update<K, V>(ks: Seq<K>, vs: Seq<V>, i: int, v: V)
    requires
        ks.len() == vs.len(),
        keys_unique(ks),
        0 <= i < ks.len(),
    ensures
        assoc(ks, vs.update(i, v)) == assoc(ks, vs).insert(ks[i], v),
{
    let vs2 = vs.update(i, v);
    lemma_assoc_facts(ks, vs);
    lemma_assoc_facts(ks, vs2);
    let m = assoc(ks, vs).insert(ks[i], v);
    assert forall|k: K| #[trigger] assoc(ks, vs2).contains_key(k) == m.contains_key(k) by {}
    assert forall|k: K| assoc(ks, vs2).contains_key(k) implies #[trigger] assoc(ks, vs2)[k] == m[k] by {
        let j = choose|j: int| 0 <= j < ks.len() && ks[j] == k;
        assert(assoc(ks, vs2)[ks[j]] == vs2[j]);
        assert(assoc(ks, vs)[ks[j]] == vs[j]);
    }
    assert(assoc(ks, vs2) =~= m);
}

/// Removing a position of unique keys removes that key.
pub proof fn lemma_assoc_remove<K, V>(ks: Seq<K>, vs: Seq<V>, i: int)
    requires
        ks.len() == vs.len(),
        keys_unique(ks),
        0 <= i < ks.len(),
    ensures
        keys_unique(ks.remove(i)),
        assoc(ks.remove(i), vs.remove(i)) == assoc(ks, vs).remove(ks[i]),
{
    let ks2 = ks.remove(i);
    let vs2 = vs.remove(i);
    lemma_assoc_facts(ks, vs);
    assert(keys_unique(ks2)) by {
        assert forall|a: int, b: int|
            0 <= a < ks2.len() && 0 <= b < ks2.len() && ks2[a] == ks2[b] implies a == b by {
            let a0 = if a < i { a } else { a + 1 };
            let b0 = if b < i { b } else { b + 1 };
            assert(ks[a0] == ks2[a] && ks[b0] == ks2[b]);
        }
    }
    lemma_assoc_facts(ks2, vs2);
    let m = assoc(ks, vs).remove(ks[i]);
    assert forall|k: K| #[trigger] assoc(ks2, vs2).contains_key(k) == m.contains_key(k) by {
        if assoc(ks2, vs2).contains_key(k) {
            let j = choose|j: int| 0 <= j < ks2.len() && ks2[j] == k;
            let j0 = if j < i { j } else { j + 1 };
            assert(ks[j0] == k);
        }
        if m.contains_key(k) {
            let j = choose|j: int| 0 <= j < ks.len() && ks[j] == k;
            assert(j != i);
            let j2 = if j < i { j } else { j - 1 };
            assert(ks2[j2] == k);
        }
    }
    assert forall|k: K| assoc(ks2, vs2).contains_key(k) implies #[trigger] assoc(ks2, vs2)[k] == m[k] by {
        let j = choose|j: int| 0 <= j < ks2.len() && ks2[j] == k;
        let j0 = if j < i { j } else { j + 1 };
        assert(assoc(ks2, vs2)[ks2[j]] == vs2[j]);
        assert(assoc(ks, vs)[ks[j0]] == vs[j0]);
    }
    assert(assoc(ks2, vs2) =~= m);
}

} // verus!
