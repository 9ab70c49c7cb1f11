//! An index from subjects to the identifiers of notes, as kept for owners and
//! for shares. A key is present only while it maps to at least one note.
use vstd::prelude::*;
use crate::assoc::{
    assoc, keys_unique, lemma_assoc_facts, lemma_assoc_len, lemma_assoc_push,
    lemma_assoc_push_unique, lemma_assoc_remove, lemma_assoc_update,
};
use vstd::std_specs::slice::into_iter_elts;
use crate::rule::{copy_subject, same_subject, subject_view, NoteId, SubjectView};

verus! {

/// The identifiers of notes under one key, in the order they were added.
#[derive(Clone, Debug, PartialEq, Eq, Default)]
pub struct NoteIds {
    ids: Vec<NoteId>,
}

impl View for NoteIds {
    type V = Seq<NoteId>;

    closed spec fn view(&self) -> Seq<NoteId> {
        self.ids@
    }
}

impl NoteIds {
    /// The identifiers, in the order they were added.
    pub fn iter(&self) -> (r: std::slice::Iter<'_, NoteId>)
        ensures
            into_iter_elts(r) == self@,
    {
        proof {
            broadcast use vstd::std_specs::slice::axiom_spec_slice_iter;
        }
        self.ids.as_slice().iter()
    }

    /// The identifiers, in the order they were added.
    pub fn to_vec(&self) -> (r: Vec<NoteId>)
        ensures
            r@ == self@,
    {
        let mut out: Vec<NoteId> = Vec::new();
        let mut i: usize = 0;
        while i < self.ids.len()
            invariant
                i <= self.ids@.len(),
                out@ == self.ids@.subrange(0, i as int),
            decreases self.ids@.len() - i,
        {
            out.push(self.ids[i]);
            proof {
                assert(out@ =~= self.ids@.subrange(0, i + 1));
            }
            i += 1;
        }
        proof {
            assert(out@ =~= self.ids@);
        }
        out
    }

    /// How many identifiers there are.
    pub fn len(&self) -> (r: usize)
        ensures
            r == self@.len(),
    {
        self.ids.len()
    }

    /// Whether `id` is among the identifiers.
    pub fn contains(&self, id: NoteId) -> (r: bool)
        ensures
            r == self@.contains(id),
    {
        let mut i: usize = 0;
        while i < self.ids.len()
            invariant
                i <= self.ids@.len(),
                forall|j: int| 0 <= j < i ==> self.ids@[j] != id,
            decreases self.ids@.len() - i,
        {
            if self.ids[i] == id {
                return true;
            }
            i += 1;
        }
        false
    }

    /// The identifiers other than `id`, in the same order.
    fn without(&self, id: NoteId) -> (r: NoteIds)
        requires
            self@.no_duplicates(),
        ensures
            r@.to_set() == self@.to_set().remove(id),
            r@.no_duplicates(),
    {
        let mut out: Vec<NoteId> = Vec::new();
        let mut i: usize = 0;
        while i < self.ids.len()
            invariant
                i <= self.ids@.len(),
                self.ids@.no_duplicates(),
                out@.no_duplicates(),
                forall|x: NoteId|
                    out@.contains(x) <==> (x != id && exists|j: int| 0 <= j < i && self.ids@[j] == x),
            decreases self.ids@.len() - i,
        {
            let x = self.ids[i];
            let ghost before = out@;
            if x != id {
                proof {
                    if before.contains(x) {
                        let j = choose|j: int| 0 <= j < i && self.ids@[j] == x;
                        assert(self.ids@[j] == self.ids@[i as int]);
                    }
                }
                out.push(x);
                proof {
                    assert forall|a: int, b: int| 0 <= a < out@.len() && 0 <= b < out@.len() && a != b implies out@[a] != out@[b] by {
                        if a < before.len() && b < before.len() {
                        } else if a < before.len() {
                            assert(before[a] == out@[a]);
                            assert(before.contains(out@[a]));
                        } else if b < before.len() {
                            assert(before[b] == out@[b]);
                            assert(before.contains(out@[b]));
                        }
                    }
                }
            }
            proof {
                assert forall|y: NoteId|
                    out@.contains(y) <==> (y != id && exists|j: int|
                        0 <= j < i + 1 && self.ids@[j] == y) by {
                    if out@.contains(y) {
                        let k = choose|k: int| 0 <= k < out@.len() && out@[k] == y;
                        if k < before.len() {
                            assert(before[k] == y);
                            assert(before.contains(y));
                        }
                    }
                    if y != id && exists|j: int| 0 <= j < i + 1 && self.ids@[j] == y {
                        let j = choose|j: int| 0 <= j < i + 1 && self.ids@[j] == y;
                        if j < i {
                            assert(before.contains(y));
                            let k = choose|k: int| 0 <= k < before.len() && before[k] == y;
                            assert(out@[k] == y);
                        } else {
                            assert(out@[out@.len() - 1] == y);
                        }
                    }
                }
            }
            i += 1;
        }
        let r = NoteIds { ids: out };
        proof {
            assert(r@.to_set() =~= self@.to_set().remove(id));
        }
        r
    }
}

proof fn lemma_to_set_push(s: Seq<NoteId>, x: NoteId)
    ensures
        s.push(x).to_set() == s.to_set().insert(x),
{
    assert forall|y: NoteId| s.to_set().insert(x).contains(y) implies s.push(x).to_set().contains(y) by {
        if y == x {
            assert(s.push(x)[s.len() as int] == y);
        } else {
            let k = choose|k: int| 0 <= k < s.len() && s[k] == y;
            assert(s.push(x)[k] == y);
        }
    }
    assert forall|y: NoteId| s.push(x).to_set().contains(y) implies s.to_set().insert(x).contains(y) by {
        let k = choose|k: int| 0 <= k < s.len() + 1 && s.push(x)[k] == y;
        if k < s.len() {
            assert(s[k] == y);
        }
    }
    assert(s.push(x).to_set() =~= s.to_set().insert(x));
}

/// One key of an index and the identifiers under it.
#[derive(Clone, Debug, PartialEq, Eq)]
pub struct IndexEntry {
    key: Option<String>,
    ids: NoteIds,
}

/// The keys of a sequence of index entries.
pub closed spec fn index_keys(es: Seq<IndexEntry>) -> Seq<SubjectView> {
    es.map_values(|e: IndexEntry| subject_view(e.key))
}

/// The sets of identifiers of a sequence of index entries.
pub closed spec fn index_sets(es: Seq<IndexEntry>) -> Seq<Set<NoteId>> {
    es.map_values(|e: IndexEntry| e.ids@.to_set())
}

/// A map from subjects to the identifiers of the notes under them.
#[derive(Clone, Debug, PartialEq, Eq)]
pub struct NoteIndex {
    entries: Vec<IndexEntry>,
}

impl View for NoteIndex {
    type V = Map<SubjectView, Set<NoteId>>;

    closed spec fn view(&self) -> Map<SubjectView, Set<NoteId>> {
        assoc(index_keys(self.entries@), index_sets(self.entries@))
    }
}

/// What the set under `k` is, absent keys reading as empty.
pub open spec fn ids_under(m: Map<SubjectView, Set<NoteId>>, k: SubjectView) -> Set<NoteId> {
    if m.contains_key(k) {
        m[k]
    } else {
        Set::empty()
    }
}

/// The index after `id` was added under `k`.
pub open spec fn index_after_insert(m: Map<SubjectView, Set<NoteId>>, k: SubjectView, id: NoteId) -> Map<
    SubjectView,
    Set<NoteId>,
> {
    m.insert(k, ids_under(m, k).insert(id))
}

/// The index after `id` was taken out from under `k`; a key left with no
/// identifier goes.
pub open spec fn index_after_remove(m: Map<SubjectView, Set<NoteId>>, k: SubjectView, id: NoteId) -> Map<
    SubjectView,
    Set<NoteId>,
> {
    if !m.contains_key(k) {
        m
    } else if m[k].remove(id).is_empty() {
        m.remove(k)
    } else {
        m.insert(k, m[k].remove(id))
    }
}

impl NoteIndex {
    /// One entry per key, and each entry holds at least one identifier.
    pub closed spec fn wf(&self) -> bool {
        &&& keys_unique(index_keys(self.entries@))
        &&& forall|i: int|
            0 <= i < self.entries@.len() ==> (#[trigger] self.entries@[i]).ids@.len() > 0
                && self.entries@[i].ids@.no_duplicates()
    }

    /// No key maps to an empty set.
    pub proof fn lemma_no_empty_key(&self)
        requires
            self.wf(),
        ensures
            forall|k: SubjectView| #[trigger] self@.contains_key(k) ==> !self@[k].is_empty(),
            self@.dom().finite(),
    {
        let ks = index_keys(self.entries@);
        let vs = index_sets(self.entries@);
        lemma_assoc_facts(ks, vs);
        lemma_assoc_len(ks, vs);
        assert forall|k: SubjectView| #[trigger] self@.contains_key(k) implies !self@[k].is_empty() by {
            let i = choose|i: int| 0 <= i < ks.len() && ks[i] == k;
            let e = self.entries@[i];
            assert(self@[ks[i]] == vs[i]);
            assert(vs[i].contains(e.ids@[0]));
        }
    }

    /// An empty index.
    pub fn new() -> (r: Self)
        ensures
            r.wf(),
            r@ == Map::<SubjectView, Set<NoteId>>::empty(),
    {
        let r = NoteIndex { entries: Vec::new() };
        proof {
            assert(r@ =~= Map::<SubjectView, Set<NoteId>>::empty());
        }
        r
    }

    fn find(&self, key: &Option<String>) -> (r: Option<usize>)
        requires
            self.wf(),
        ensures
            match r {
                Some(i) => i < self.entries@.len() && index_keys(self.entries@)[i as int] == subject_view(*key)
                    && self@.contains_key(subject_view(*key)) && self@[subject_view(*key)]
                    == index_sets(self.entries@)[i as int],
                None => !self@.contains_key(subject_view(*key)),
            },
    {
        let mut i: usize = 0;
        while i < self.entries.len()
            invariant
                i <= self.entries@.len(),
                self.wf(),
                forall|j: int| 0 <= j < i ==> index_keys(self.entries@)[j] != subject_view(*key),
            decreases self.entries@.len() - i,
        {
            if same_subject(&self.entries[i].key, key) {
                proof {
                    lemma_assoc_facts(index_keys(self.entries@), index_sets(self.entries@));
                    assert(index_keys(self.entries@)[i as int] == subject_view(*key));
                }
                return Some(i);
            }
            i += 1;
        }
        proof {
            lemma_assoc_facts(index_keys(self.entries@), index_sets(self.entries@));
        }
        None
    }

    /// How many keys there are.
    pub fn len(&self) -> (r: usize)
        requires
            self.wf(),
        ensures
            r == self@.dom().len(),
    {
        proof {
            lemma_assoc_len(index_keys(self.entries@), index_sets(self.entries@));
        }
        self.entries.len()
    }

    /// How many identifiers are under `key`.
    pub fn count(&self, key: &Option<String>) -> (r: usize)
        requires
            self.wf(),
        ensures
            r == ids_under(self@, subject_view(*key)).len(),
    {
        match self.find(key) {
            Some(i) => {
                proof {
                    let e = self.entries@[i as int];
                    assert(e.ids@.no_duplicates());
                    e.ids@.unique_seq_to_set();
                    assert(index_sets(self.entries@)[i as int] == e.ids@.to_set());
                }
                self.entries[i].ids.len()
            },
            None => {
                proof {
                    assert(Set::<NoteId>::empty().len() == 0);
                }
                0
            },
        }
    }

    /// Whether `key` is present.
    pub fn contains_key(&self, key: &Option<String>) -> (r: bool)
        requires
            self.wf(),
        ensures
            r == self@.contains_key(subject_view(*key)),
    {
        self.find(key).is_some()
    }

    /// The identifiers under `key`, in the order they were added.
    pub fn get(&self, key: &Option<String>) -> (r: NoteIds)
        requires
            self.wf(),
        ensures
            r@.to_set() == ids_under(self@, subject_view(*key)),
    {
        match self.find(key) {
            Some(i) => {
                let r = NoteIds { ids: self.entries[i].ids.to_vec() };
                proof {
                    assert(index_sets(self.entries@)[i as int] == self.entries@[i as int].ids@.to_set());
                }
                r
            },
            None => {
                let r = NoteIds { ids: Vec::new() };
                proof {
                    assert(r@.to_set() =~= Set::empty());
                }
                r
            },
        }
    }

    /// Adds `id` under `key`.
    pub fn insert(&mut self, key: &Option<String>, id: NoteId)
        requires
            old(self).wf(),
        ensures
            final(self).wf(),
            final(self)@ == index_after_insert(old(self)@, subject_view(*key), id),
    {
        let ghost ks = index_keys(self.entries@);
        let ghost vs = index_sets(self.entries@);
        let ghost pre = self@;
        match self.find(key) {
            Some(i) => {
                if !self.entries[i].ids.contains(id) {
                    let mut ids = self.entries[i].ids.to_vec();
                    let ghost before = ids@;
                    ids.push(id);
                    proof {
                        assert forall|a: int, b: int| 0 <= a < ids@.len() && 0 <= b < ids@.len() && a != b implies ids@[a] != ids@[b] by {
                            if a < before.len() && b < before.len() {
                            } else if a < before.len() {
                                assert(before[a] == ids@[a]);
                            } else if b < before.len() {
                                assert(before[b] == ids@[b]);
                            }
                        }
                    }
                    let e = IndexEntry { key: copy_subject(key), ids: NoteIds { ids } };
                    self.entries.set(i, e);
                    proof {
                        assert(index_keys(self.entries@) =~= ks);
                        lemma_to_set_push(self.entries@[i as int].ids@.drop_last(), id);
                        assert(self.entries@[i as int].ids@.drop_last() == old(self).entries@[i as int].ids@);
                        assert(e.ids@.to_set() == vs[i as int].insert(id));
                        assert(index_sets(self.entries@) =~= vs.update(i as int, e.ids@.to_set()));
                        lemma_assoc_update(ks, vs, i as int, e.ids@.to_set());
                    }
                } else {
                    proof {
                        assert(pre[subject_view(*key)].insert(id) =~= pre[subject_view(*key)]);
                        assert(pre.insert(subject_view(*key), pre[subject_view(*key)]) =~= pre);
                    }
                }
            },
            None => {
                let e = IndexEntry { key: copy_subject(key), ids: NoteIds { ids: vec![id] } };
                self.entries.push(e);
                proof {
                    assert(index_keys(self.entries@) =~= ks.push(subject_view(*key)));
                    assert(e.ids@.to_set() =~= Set::<NoteId>::empty().insert(id));
                    assert(index_sets(self.entries@) =~= vs.push(e.ids@.to_set()));
                    lemma_assoc_push_unique(ks, vs, subject_view(*key), e.ids@.to_set());
                    lemma_assoc_push(ks, vs, subject_view(*key), e.ids@.to_set());
                }
            },
        }
        proof {
            assert forall|j: int| 0 <= j < self.entries@.len() implies (#[trigger] self.entries@[j]).ids@.len() > 0 by {
            }
        }
    }

    /// Takes `id` out from under `key`; a key left with no identifier goes.
    pub fn remove(&mut self, key: &Option<String>, id: NoteId)
        requires
            old(self).wf(),
        ensures
            final(self).wf(),
            final(self)@ == index_after_remove(old(self)@, subject_view(*key), id),
    {
        let ghost ks = index_keys(self.entries@);
        let ghost vs = index_sets(self.entries@);
        let ghost pre = self@;
        match self.find(key) {
            Some(i) => {
                let rest = self.entries[i].ids.without(id);
                if rest.len() == 0 {
                    self.entries.remove(i);
                    proof {
                        assert(rest@ =~= Seq::<NoteId>::empty());
                        assert(rest@.to_set() =~= Set::<NoteId>::empty());
                        assert(index_keys(self.entries@) =~= ks.remove(i as int));
                        assert(index_sets(self.entries@) =~= vs.remove(i as int));
                        lemma_assoc_remove(ks, vs, i as int);
                        assert forall|j: int| 0 <= j < self.entries@.len() implies (#[trigger] self.entries@[j]).ids@.len() > 0 by {
                            if j < i {
                                assert(self.entries@[j] == old(self).entries@[j]);
                            } else {
                                assert(self.entries@[j] == old(self).entries@[j + 1]);
                            }
                        }
                    }
                } else {
                    let e = IndexEntry { key: copy_subject(key), ids: rest };
                    self.entries.set(i, e);
                    proof {
                        assert(rest@.to_set().contains(rest@[0]));
                        assert(index_keys(self.entries@) =~= ks);
                        assert(index_sets(self.entries@) =~= vs.update(i as int, rest@.to_set()));
                        lemma_assoc_update(ks, vs, i as int, rest@.to_set());
                        assert forall|j: int| 0 <= j < self.entries@.len() implies (#[trigger] self.entries@[j]).ids@.len() > 0 by {
                            if j != i {
                                assert(self.entries@[j] == old(self).entries@[j]);
                            }
                        }
                    }
                }
            },
            None => {},
        }
    }
}


/// After adding `id` under `k`, the set under `k` gains `id` and the others
/// stay.
pub proof fn lemma_ids_under_insert(m: Map<SubjectView, Set<NoteId>>, k: SubjectView, id: NoteId)
    ensures
        forall|k2: SubjectView| #[trigger]
            ids_under(index_after_insert(m, k, id), k2) == if k2 == k {
                ids_under(m, k).insert(id)
            } else {
                ids_under(m, k2)
            },
{
}

/// After taking `id` out from under `k`, the set under `k` loses `id` and the
/// others stay.
pub proof fn lemma_ids_under_remove(m: Map<SubjectView, Set<NoteId>>, k: SubjectView, id: NoteId)
    ensures
        forall|k2: SubjectView| #[trigger]
            ids_under(index_after_remove(m, k, id), k2) == if k2 == k {
                ids_under(m, k).remove(id)
            } else {
                ids_under(m, k2)
            },
{
    assert forall|k2: SubjectView| #[trigger]
        ids_under(index_after_remove(m, k, id), k2) == if k2 == k {
            ids_under(m, k).remove(id)
        } else {
            ids_under(m, k2)
        } by {
        if k2 == k && m.contains_key(k) && m[k].remove(id).is_empty() {
            assert(m[k].remove(id) =~= Set::empty());
        }
        if k2 == k && !m.contains_key(k) {
            assert(Set::<NoteId>::empty().remove(id) =~= Set::empty());
        }
    }
}

} // verus!
