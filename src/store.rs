//! The notes of all owners, with an index of the notes of each owner and an
//! index of the notes shared with each subject, kept in step with the notes.
use vstd::prelude::*;
use crate::assoc::{
    assoc, keys_unique, lemma_assoc_facts, lemma_assoc_push, lemma_assoc_push_unique,
    lemma_assoc_remove, lemma_assoc_update,
};
use crate::error::NoteError;
use crate::index::{
    ids_under, index_after_insert, index_after_remove, lemma_ids_under_insert,
    lemma_ids_under_remove, NoteIds, NoteIndex,
};
use crate::keys::{derivation_id, derivation_id_of};
use crate::history::HistoryView;
use crate::note::{created_view, Access, EncryptedNote, NoteView};
use crate::rule::{subject_view, NoteId, SubjectView};

verus! {

/// The most owners the store allows.
pub const MAX_USERS: usize = 1000;

/// The most notes one owner may have.
pub const MAX_NOTES_PER_USER: usize = 50;

/// The most characters of a note's encrypted text.
pub const MAX_NOTE_CHARS: usize = 100000;

/// The most rules one note may have.
pub const MAX_SHARES_PER_NOTE: usize = 50;

/// The bounds that a store enforces.
#[derive(Clone, Copy, Debug, PartialEq, Eq, Structural)]
pub struct Limits {
    pub max_users: usize,
    pub max_notes_per_user: usize,
    pub max_note_chars: usize,
    pub max_shares_per_note: usize,
}

impl Limits {
    /// The usual bounds.
    pub fn standard() -> (r: Limits)
        ensures
            r == (Limits {
                max_users: MAX_USERS,
                max_notes_per_user: MAX_NOTES_PER_USER,
                max_note_chars: MAX_NOTE_CHARS,
                max_shares_per_note: MAX_SHARES_PER_NOTE,
            }),
    {
        Limits {
            max_users: MAX_USERS,
            max_notes_per_user: MAX_NOTES_PER_USER,
            max_note_chars: MAX_NOTE_CHARS,
            max_shares_per_note: MAX_SHARES_PER_NOTE,
        }
    }
}

/// The model of a store: its notes by identifier, the owner index (keys
/// `Some(owner)`), the share index (keys are subjects, `None` for
/// everyone), the next identifier to hand out, and the bounds.
#[verifier::ext_equal]
pub struct StoreView {
    pub notes: Map<NoteId, NoteView>,
    pub owners: Map<SubjectView, Set<NoteId>>,
    pub shares: Map<SubjectView, Set<NoteId>>,
    pub next_id: NoteId,
    pub limits: Limits,
}

/// The owner index holds `id` under `Some(o)` exactly when note `id` exists
/// and `o` owns it.
pub open spec fn owner_index_exact(v: StoreView) -> bool {
    forall|o: SubjectView, id: NoteId| #[trigger]
        ids_under(v.owners, o).contains(id) <==> (v.notes.contains_key(id) && o == Some(
            v.notes[id].owner,
        ))
}

/// The share index holds `id` under `s` exactly when note `id` exists and
/// has a rule for `s`.
pub open spec fn share_index_exact(v: StoreView) -> bool {
    forall|s: SubjectView, id: NoteId| #[trigger]
        ids_under(v.shares, s).contains(id) <==> (v.notes.contains_key(id)
            && v.notes[id].rules.contains_key(s))
}

/// No index keeps a key without a note under it.
pub open spec fn no_empty_keys(v: StoreView) -> bool {
    &&& forall|o: SubjectView| #[trigger] v.owners.contains_key(o) ==> !v.owners[o].is_empty()
    &&& forall|s: SubjectView| #[trigger] v.shares.contains_key(s) ==> !v.shares[s].is_empty()
}

/// Every note that is locked in `a` still exists and is locked in `b`.
pub open spec fn locks_kept(a: StoreView, b: StoreView) -> bool {
    forall|id: NoteId|
        #[trigger] a.notes.contains_key(id) && a.notes[id].locked ==> b.notes.contains_key(id)
            && b.notes[id].locked
}

/// `a` is the start of `b`.
pub open spec fn starts(a: Seq<HistoryView>, b: Seq<HistoryView>) -> bool {
    a.len() <= b.len() && forall|i: int| 0 <= i < a.len() ==> #[trigger] b[i] == a[i]
}

/// Every note of `a` that is still in `b` has its history of `a` as the
/// start of its history in `b`: histories only grow at the end.
pub open spec fn histories_kept(a: StoreView, b: StoreView) -> bool {
    forall|id: NoteId|
        #[trigger] b.notes.contains_key(id) && a.notes.contains_key(id) ==> starts(
            a.notes[id].history,
            b.notes[id].history,
        )
}

/// Identifiers only move forward: the next identifier of `b` is not below
/// that of `a`, and a note of `b` that `a` lacks has an identifier handed out
/// in between, so none is ever reused.
pub open spec fn ids_fresh(a: StoreView, b: StoreView) -> bool {
    &&& a.next_id <= b.next_id
    &&& forall|id: NoteId|
        #[trigger] b.notes.contains_key(id) && !a.notes.contains_key(id) ==> a.next_id <= id
            && id < b.next_id
}

/// The outcome that an error or success stands for.
pub open spec fn outcome(e: Option<NoteError>) -> Result<(), NoteError> {
    match e {
        Some(err) => Err(err),
        None => Ok(()),
    }
}

impl StoreView {
    /// The store with note `id` replaced by `n`.
    pub open spec fn with_note(self, id: NoteId, n: NoteView) -> StoreView {
        StoreView { notes: self.notes.insert(id, n), ..self }
    }

    /// Why `who` may not create a note: the identifiers are used up, `who`
    /// has as many notes as allowed, or `who` is a new owner and the store
    /// has as many owners as allowed.
    pub open spec fn create_error(self, who: Seq<char>) -> Option<NoteError> {
        if self.next_id == u128::MAX || (self.owners.contains_key(Some(who))
            && self.owners[Some(who)].len() >= self.limits.max_notes_per_user) || (
        !self.owners.contains_key(Some(who)) && self.owners.dom().len()
            >= self.limits.max_users) {
            Some(NoteError::QuotaExceeded)
        } else {
            None
        }
    }

    /// The store after `who` created a note at `now`.
    pub open spec fn after_create(self, who: Seq<char>, now: u64) -> StoreView {
        StoreView {
            notes: self.notes.insert(self.next_id, created_view(self.next_id, who, now)),
            owners: index_after_insert(self.owners, Some(who), self.next_id),
            next_id: (self.next_id + 1) as NoteId,
            ..self
        }
    }

    /// Why `who` may not set the payload of note `id` to an encrypted text
    /// of `text_len` characters at `now`.
    pub open spec fn update_error(self, who: Seq<char>, id: NoteId, text_len: nat, now: u64) -> Option<
        NoteError,
    > {
        if !self.notes.contains_key(id) {
            Some(NoteError::NotFound)
        } else if !self.notes[id].authorized(who, now) {
            Some(NoteError::Unauthorized)
        } else if !self.notes[id].may_update(who) {
            Some(NoteError::AlreadyLocked)
        } else if text_len > self.limits.max_note_chars {
            Some(NoteError::QuotaExceeded)
        } else {
            None
        }
    }

    /// Why `who` may not delete note `id`: only its owner may, and only
    /// while it is unlocked.
    pub open spec fn delete_error(self, who: Seq<char>, id: NoteId) -> Option<NoteError> {
        if !self.notes.contains_key(id) {
            Some(NoteError::NotFound)
        } else if self.notes[id].owner != who {
            Some(NoteError::Unauthorized)
        } else if self.notes[id].locked {
            Some(NoteError::AlreadyLocked)
        } else {
            None
        }
    }

    /// The store after note `id` was deleted.
    pub open spec fn after_delete(self, id: NoteId) -> StoreView {
        StoreView {
            notes: self.notes.remove(id),
            owners: index_after_remove(self.owners, Some(self.notes[id].owner), id),
            ..self
        }
    }

    /// Why `who` may not share note `id` with `subject`: only the owner
    /// shares, never with itself, not as the lock forbids, and a new subject
    /// only while the note has fewer rules than allowed.
    pub open spec fn share_error(self, who: Seq<char>, id: NoteId, subject: SubjectView) -> Option<
        NoteError,
    > {
        if !self.notes.contains_key(id) {
            Some(NoteError::NotFound)
        } else if self.notes[id].owner != who || subject == Some(who) {
            Some(NoteError::Unauthorized)
        } else if self.notes[id].share_refused(subject) {
            Some(NoteError::AlreadyLocked)
        } else if !self.notes[id].rules.contains_key(subject) && self.notes[id].rules.dom().len()
            >= self.limits.max_shares_per_note {
            Some(NoteError::QuotaExceeded)
        } else {
            None
        }
    }

    /// The store after note `id` was shared with `subject` from `when` on,
    /// at `now`.
    pub open spec fn after_share(self, id: NoteId, subject: SubjectView, when: Option<u64>, now: u64) -> StoreView {
        StoreView {
            notes: self.notes.insert(id, self.notes[id].after_share(subject, when, now)),
            shares: index_after_insert(self.shares, subject, id),
            ..self
        }
    }

    /// Why `who` may not remove the rule of `subject` from note `id`.
    pub open spec fn unshare_error(self, who: Seq<char>, id: NoteId, subject: SubjectView) -> Option<
        NoteError,
    > {
        if !self.notes.contains_key(id) {
            Some(NoteError::NotFound)
        } else if self.notes[id].owner != who {
            Some(NoteError::Unauthorized)
        } else if self.notes[id].unshare_refused(subject) {
            Some(NoteError::AlreadyLocked)
        } else {
            None
        }
    }

    /// The store after the rule of `subject` was removed from note `id` at
    /// `now`; nothing changes when there was no such rule.
    pub open spec fn after_unshare(self, id: NoteId, subject: SubjectView, now: u64) -> StoreView {
        if self.notes[id].rules.contains_key(subject) {
            StoreView {
                notes: self.notes.insert(id, self.notes[id].after_unshare(subject, now)),
                shares: index_after_remove(self.shares, subject, id),
                ..self
            }
        } else {
            self
        }
    }

    /// Why `who` may not have the key of note `id` at `now`.
    pub open spec fn key_error(self, who: Seq<char>, id: NoteId, now: u64) -> Option<NoteError> {
        if !self.notes.contains_key(id) {
            Some(NoteError::NotFound)
        } else if !self.notes[id].authorized(who, now) {
            Some(NoteError::Unauthorized)
        } else {
            None
        }
    }

    /// The store after `who` asked for the key of note `id` at `now`. Each
    /// caller's first request is recorded once: the owner's as a read entry
    /// in the history (the note does not lock), a reader's as a read (which
    /// locks the note). Later requests change nothing.
    pub open spec fn after_key_request(self, who: Seq<char>, id: NoteId, now: u64) -> StoreView {
        let n = self.notes[id];
        if n.access(who, now) == Access::Owner {
            if n.has_read_entry(who) {
                self
            } else {
                self.with_note(id, n.after_owner_read(now))
            }
        } else if n.read_by.contains(who) {
            self
        } else {
            self.with_note(id, n.after_read(who, now))
        }
    }
}

/// Once locked, a note stays locked and is never deleted, over any sequence
/// of operations: if each step keeps the locks of the state before it, every
/// later state keeps the locks of every earlier one.
pub proof fn lemma_locks_kept_along(states: Seq<StoreView>)
    requires
        forall|i: int| 0 <= i < states.len() - 1 ==> locks_kept(#[trigger] states[i], states[i + 1]),
    ensures
        forall|i: int, j: int| 0 <= i <= j < states.len() ==> locks_kept(#[trigger] states[i], #[trigger] states[j]),
    decreases states.len(),
{
    if states.len() > 0 {
        let init = states.drop_last();
        assert forall|i: int| 0 <= i < init.len() - 1 implies locks_kept(#[trigger] init[i], init[i + 1]) by {
            assert(init[i] == states[i] && init[i + 1] == states[i + 1]);
        }
        lemma_locks_kept_along(init);
        assert forall|i: int, j: int| 0 <= i <= j < states.len() implies locks_kept(#[trigger] states[i], #[trigger] states[j]) by {
            if j < states.len() - 1 {
                assert(init[i] == states[i] && init[j] == states[j]);
            } else if i < j {
                assert(init[i] == states[i] && init[j - 1] == states[j - 1]);
                assert(locks_kept(states[i], states[j - 1]));
                assert(locks_kept(states[j - 1], states[j]));
            }
        }
    }
}

/// The histories only grow at the end, over any sequence of operations: if
/// each step keeps the histories of the state before it, every later state
/// keeps those of every earlier one, for the notes present in both.
pub proof fn lemma_histories_kept_along(states: Seq<StoreView>)
    requires
        forall|i: int| 0 <= i < states.len() - 1 ==> histories_kept(#[trigger] states[i], states[i + 1]),
        forall|i: int| 0 <= i < states.len() - 1 ==> ids_fresh(#[trigger] states[i], states[i + 1]),
        forall|i: int, id: NoteId|
            0 <= i < states.len() && #[trigger] states[i].notes.contains_key(id) ==> id < states[i].next_id,
    ensures
        forall|i: int, j: int|
            0 <= i <= j < states.len() ==> histories_kept(#[trigger] states[i], #[trigger] states[j])
                && states[i].next_id <= states[j].next_id,
    decreases states.len(),
{
    if states.len() > 0 {
        let init = states.drop_last();
        assert forall|i: int| 0 <= i < init.len() - 1 implies histories_kept(#[trigger] init[i], init[i + 1]) && ids_fresh(init[i], init[i + 1]) by {
            assert(init[i] == states[i] && init[i + 1] == states[i + 1]);
        }
        assert forall|i: int, id: NoteId|
            0 <= i < init.len() && #[trigger] init[i].notes.contains_key(id) implies id < init[i].next_id by {
            assert(init[i] == states[i]);
        }
        lemma_histories_kept_along(init);
        assert forall|i: int, j: int| 0 <= i <= j < states.len() implies histories_kept(#[trigger] states[i], #[trigger] states[j])
            && states[i].next_id <= states[j].next_id by {
            if j < states.len() - 1 {
                assert(init[i] == states[i] && init[j] == states[j]);
            } else if i < j {
                assert(init[i] == states[i] && init[j - 1] == states[j - 1]);
                let a = states[i];
                let m = states[j - 1];
                let b = states[j];
                assert(histories_kept(a, m));
                assert(histories_kept(m, b));
                assert(a.next_id <= m.next_id);
                assert forall|id: NoteId| #[trigger] b.notes.contains_key(id) && a.notes.contains_key(id) implies starts(a.notes[id].history, b.notes[id].history) by {
                    assert(id < a.next_id);
                    if m.notes.contains_key(id) {
                        assert(starts(a.notes[id].history, m.notes[id].history));
                        assert(starts(m.notes[id].history, b.notes[id].history));
                    } else {
                        assert(m.next_id <= id);
                    }
                }
            }
        }
    }
}

/// Sharing a note with one more subject once it has as many rules as allowed
/// is refused as over quota (and a refused share changes nothing, as
/// `add_user` states), provided nothing else refuses it first.
pub proof fn lemma_share_quota(v: StoreView, who: Seq<char>, id: NoteId, subject: SubjectView)
    requires
        v.notes.contains_key(id),
        v.notes[id].owner == who,
        subject != Some(who),
        !v.notes[id].share_refused(subject),
        !v.notes[id].rules.contains_key(subject),
        v.notes[id].rules.dom().len() >= v.limits.max_shares_per_note,
    ensures
        v.share_error(who, id, subject) == Some(NoteError::QuotaExceeded),
{
}

/// Whether `n` is visible to `who` at `now`: owned by `who`, shared with
/// `who` by a rule in force, or shared with everyone by a rule in force.
pub open spec fn visible(n: NoteView, who: Seq<char>, now: u64) -> bool {
    n.listed(who, now)
}

/// The notes and indices of all owners.
pub struct NoteStore {
    notes: Vec<EncryptedNote>,
    owners: NoteIndex,
    shares: NoteIndex,
    next_id: NoteId,
    limits: Limits,
}

closed spec fn note_ids(ns: Seq<EncryptedNote>) -> Seq<NoteId> {
    ns.map_values(|n: EncryptedNote| n@.id)
}

closed spec fn note_views(ns: Seq<EncryptedNote>) -> Seq<NoteView> {
    ns.map_values(|n: EncryptedNote| n@)
}

closed spec fn sorted_ids(ns: Seq<EncryptedNote>) -> bool {
    forall|i: int, j: int| 0 <= i < j < ns.len() ==> ns[i]@.id < ns[j]@.id
}

proof fn lemma_notes_facts(ns: Seq<EncryptedNote>)
    requires
        sorted_ids(ns),
    ensures
        keys_unique(note_ids(ns)),
        forall|i: int|
            0 <= i < ns.len() ==> assoc(note_ids(ns), note_views(ns)).contains_key(#[trigger] ns[i]@.id)
                && assoc(note_ids(ns), note_views(ns))[ns[i]@.id] == ns[i]@,
        forall|id: NoteId| #[trigger]
            assoc(note_ids(ns), note_views(ns)).contains_key(id) <==> exists|i: int|
                0 <= i < ns.len() && ns[i]@.id == id,
{
    let ks = note_ids(ns);
    let vs = note_views(ns);
    assert forall|a: int, b: int| 0 <= a < ks.len() && 0 <= b < ks.len() && ks[a] == ks[b] implies a == b by {
        if a < b {
            assert(ns[a]@.id < ns[b]@.id);
        } else if b < a {
            assert(ns[b]@.id < ns[a]@.id);
        }
    }
    lemma_assoc_facts(ks, vs);
    assert forall|i: int| 0 <= i < ns.len() implies assoc(ks, vs).contains_key(#[trigger] ns[i]@.id)
        && assoc(ks, vs)[ns[i]@.id] == ns[i]@ by {
        assert(ks[i] == ns[i]@.id);
        assert(vs[i] == ns[i]@);
    }
    assert forall|id: NoteId| #[trigger] assoc(ks, vs).contains_key(id) implies exists|i: int|
        0 <= i < ns.len() && ns[i]@.id == id by {
        let i = choose|i: int| 0 <= i < ks.len() && ks[i] == id;
        assert(ns[i]@.id == id);
    }
}

proof fn lemma_notes_update(ns: Seq<EncryptedNote>, i: int, n: EncryptedNote)
    requires
        sorted_ids(ns),
        0 <= i < ns.len(),
        n@.id == ns[i]@.id,
    ensures
        sorted_ids(ns.update(i, n)),
        assoc(note_ids(ns.update(i, n)), note_views(ns.update(i, n))) == assoc(
            note_ids(ns),
            note_views(ns),
        ).insert(n@.id, n@),
{
    lemma_notes_facts(ns);
    assert(note_ids(ns.update(i, n)) =~= note_ids(ns));
    assert(note_views(ns.update(i, n)) =~= note_views(ns).update(i, n@));
    lemma_assoc_update(note_ids(ns), note_views(ns), i, n@);
    assert(note_ids(ns)[i] == n@.id);
    assert forall|a: int, b: int| 0 <= a < b < ns.len() implies ns.update(i, n)[a]@.id < ns.update(
        i,
        n,
    )[b]@.id by {
        assert(ns[a]@.id < ns[b]@.id);
    }
}

proof fn lemma_notes_remove(ns: Seq<EncryptedNote>, i: int)
    requires
        sorted_ids(ns),
        0 <= i < ns.len(),
    ensures
        sorted_ids(ns.remove(i)),
        assoc(note_ids(ns.remove(i)), note_views(ns.remove(i))) == assoc(
            note_ids(ns),
            note_views(ns),
        ).remove(ns[i]@.id),
{
    lemma_notes_facts(ns);
    assert(note_ids(ns.remove(i)) =~= note_ids(ns).remove(i));
    assert(note_views(ns.remove(i)) =~= note_views(ns).remove(i));
    lemma_assoc_remove(note_ids(ns), note_views(ns), i);
    assert(note_ids(ns)[i] == ns[i]@.id);
    assert forall|a: int, b: int| 0 <= a < b < ns.remove(i).len() implies ns.remove(i)[a]@.id < ns.remove(
        i,
    )[b]@.id by {
        let a0 = if a < i { a } else { a + 1 };
        let b0 = if b < i { b } else { b + 1 };
        assert(ns[a0]@.id < ns[b0]@.id);
    }
}

/// Replacing a note by one with the same owner and the same subjects keeps
/// both indices exact.
proof fn lemma_exact_with_note(a: StoreView, id: NoteId, n: NoteView)
    requires
        owner_index_exact(a),
        share_index_exact(a),
        a.notes.contains_key(id),
        n.owner == a.notes[id].owner,
        n.rules.dom() == a.notes[id].rules.dom(),
    ensures
        owner_index_exact(a.with_note(id, n)),
        share_index_exact(a.with_note(id, n)),
{
    let b = a.with_note(id, n);
    assert forall|o: SubjectView, x: NoteId| #[trigger]
        ids_under(b.owners, o).contains(x) <==> (b.notes.contains_key(x) && o == Some(
            b.notes[x].owner,
        )) by {
        assert(ids_under(a.owners, o).contains(x) <==> (a.notes.contains_key(x) && o == Some(
            a.notes[x].owner,
        )));
    }
    assert forall|s: SubjectView, x: NoteId| #[trigger]
        ids_under(b.shares, s).contains(x) <==> (b.notes.contains_key(x)
            && b.notes[x].rules.contains_key(s)) by {
        assert(ids_under(a.shares, s).contains(x) <==> (a.notes.contains_key(x)
            && a.notes[x].rules.contains_key(s)));
        if x == id {
            assert(n.rules.dom().contains(s) == a.notes[id].rules.dom().contains(s));
        }
    }
}

/// Whether `s` has more than `max` characters.
fn exceeds_chars(s: &String, max: usize) -> (r: bool)
    ensures
        r == (s@.len() > max),
{
    broadcast use vstd::string::axiom_spec_iter;

    let mut n: usize = 0;
    for c in it: s.as_str().chars()
        invariant
            n == it.index@,
            n <= max,
            it.seq() == s@,
    {
        if n >= max {
            return true;
        }
        n = n + 1;
    }
    false
}

impl View for NoteStore {
    type V = StoreView;

    closed spec fn view(&self) -> StoreView {
        StoreView {
            notes: assoc(note_ids(self.notes@), note_views(self.notes@)),
            owners: self.owners@,
            shares: self.shares@,
            next_id: self.next_id,
            limits: self.limits,
        }
    }
}

impl NoteStore {
    /// The internal invariant: notes in ascending order of identifier, all
    /// below the next one, each well formed, and both indices exact.
    pub closed spec fn wf(&self) -> bool {
        &&& sorted_ids(self.notes@)
        &&& forall|i: int| 0 <= i < self.notes@.len() ==> (#[trigger] self.notes@[i])@.id < self.next_id
        &&& forall|i: int| 0 <= i < self.notes@.len() ==> (#[trigger] self.notes@[i]).wf()
        &&& self.owners.wf()
        &&& self.shares.wf()
        &&& owner_index_exact(self@)
        &&& share_index_exact(self@)
    }

    /// In a well-formed store each index holds a note exactly when the
    /// relation it stands for holds (owner of the note; subject of one of
    /// its rules), no key is left without a note, every note is filed under
    /// its own identifier, below the next one, and an unlocked note has
    /// neither rules nor readers (so only its owner may read or change it).
    pub proof fn lemma_indices_exact(&self)
        requires
            self.wf(),
        ensures
            owner_index_exact(self@),
            share_index_exact(self@),
            no_empty_keys(self@),
            forall|id: NoteId| #[trigger]
                self@.notes.contains_key(id) ==> self@.notes[id].id == id && id < self@.next_id,
            forall|id: NoteId| #[trigger]
                self@.notes.contains_key(id) && !self@.notes[id].locked ==> self@.notes[id].read_by.is_empty()
                    && forall|k: SubjectView| !(#[trigger] self@.notes[id].rules.contains_key(k)),
    {
        self.owners.lemma_no_empty_key();
        self.shares.lemma_no_empty_key();
        lemma_notes_facts(self.notes@);
        assert forall|id: NoteId| #[trigger]
            self@.notes.contains_key(id) implies self@.notes[id].id == id && id < self@.next_id by {
            let i = choose|i: int| 0 <= i < self.notes@.len() && self.notes@[i]@.id == id;
            assert(self.notes@[i]@.id < self.next_id);
        }
        assert forall|id: NoteId| #[trigger]
            self@.notes.contains_key(id) && !self@.notes[id].locked implies self@.notes[id].read_by.is_empty()
                && forall|k: SubjectView| !(#[trigger] self@.notes[id].rules.contains_key(k)) by {
            let i = choose|i: int| 0 <= i < self.notes@.len() && self.notes@[i]@.id == id;
            assert(self.notes@[i].wf());
            self.notes@[i].lemma_unlocked_unshared();
        }
    }

    /// An empty store with bounds `limits`; identifiers start at one.
    pub fn new(limits: Limits) -> (r: Self)
        ensures
            r.wf(),
            r@.notes == Map::<NoteId, NoteView>::empty(),
            r@.owners == Map::<SubjectView, Set<NoteId>>::empty(),
            r@.shares == Map::<SubjectView, Set<NoteId>>::empty(),
            r@.next_id == 1,
            r@.limits == limits,
    {
        let r = NoteStore {
            notes: Vec::new(),
            owners: NoteIndex::new(),
            shares: NoteIndex::new(),
            next_id: 1,
            limits,
        };
        proof {
            assert(r@.notes =~= Map::<NoteId, NoteView>::empty());
        }
        r
    }

    /// The bounds in force.
    pub fn limits(&self) -> (r: Limits)
        ensures
            r == self@.limits,
    {
        self.limits
    }

    fn find_note(&self, id: NoteId) -> (r: Option<usize>)
        requires
            self.wf(),
        ensures
            match r {
                Some(i) => i < self.notes@.len() && self.notes@[i as int]@.id == id
                    && self@.notes.contains_key(id) && self@.notes[id] == self.notes@[i as int]@,
                None => !self@.notes.contains_key(id),
            },
    {
        proof {
            lemma_notes_facts(self.notes@);
        }
        let mut i: usize = 0;
        while i < self.notes.len()
            invariant
                i <= self.notes@.len(),
                self.wf(),
                forall|j: int| 0 <= j < i ==> self.notes@[j]@.id != id,
            decreases self.notes@.len() - i,
        {
            if self.notes[i].id() == id {
                proof {
                    lemma_notes_facts(self.notes@);
                }
                return Some(i);
            }
            i += 1;
        }
        None
    }
    /// Creates an empty note owned by `caller` at `now` and returns its
    /// identifier, the next one in order. Refused when the identifiers are
    /// used up or a bound on owners or on notes per owner would be passed.
    pub fn create_note(&mut self, caller: &String, now: u64) -> (r: Result<NoteId, NoteError>)
        requires
            old(self).wf(),
        ensures
            final(self).wf(),
            locks_kept(old(self)@, final(self)@),
            histories_kept(old(self)@, final(self)@),
            ids_fresh(old(self)@, final(self)@),
            old(self)@.create_error(caller@) == Some(NoteError::QuotaExceeded) ==> r == Err::<NoteId, NoteError>(
                NoteError::QuotaExceeded,
            ) && final(self)@ == old(self)@,
            old(self)@.create_error(caller@) is None ==> r == Ok::<NoteId, NoteError>(old(self)@.next_id)
                && final(self)@ == old(self)@.after_create(caller@, now),
    {
        let ghost pre = self@;
        let key = Some(caller.clone());
        if self.next_id == u128::MAX {
            return Err(NoteError::QuotaExceeded);
        }
        if self.owners.contains_key(&key) {
            if self.owners.count(&key) >= self.limits.max_notes_per_user {
                return Err(NoteError::QuotaExceeded);
            }
        } else if self.owners.len() >= self.limits.max_users {
            return Err(NoteError::QuotaExceeded);
        }
        let id = self.next_id;
        let note = EncryptedNote::create(id, caller.clone(), now);
        let ghost old_notes = self.notes@;
        proof {
            lemma_notes_facts(old_notes);
            self.lemma_indices_exact();
        }
        self.notes.push(note);
        self.owners.insert(&key, id);
        self.next_id = id + 1;
        proof {
            let ks = note_ids(old_notes);
            let vs = note_views(old_notes);
            assert(note_ids(self.notes@) =~= ks.push(id));
            assert(note_views(self.notes@) =~= vs.push(note@));
            lemma_assoc_push(ks, vs, id, note@);
            assert(sorted_ids(self.notes@)) by {
                assert forall|i: int, j: int| 0 <= i < j < self.notes@.len() implies self.notes@[i]@.id
                    < self.notes@[j]@.id by {
                    if j == old_notes.len() {
                        assert(old_notes[i]@.id < id);
                    } else {
                        assert(old_notes[i] == self.notes@[i] && old_notes[j] == self.notes@[j]);
                    }
                }
            }
            assert forall|i: int| 0 <= i < self.notes@.len() implies (#[trigger] self.notes@[i])@.id
                < self.next_id by {
                if i < old_notes.len() {
                    assert(old_notes[i] == self.notes@[i]);
                }
            }
            assert forall|i: int| 0 <= i < self.notes@.len() implies (#[trigger] self.notes@[i]).wf() by {
                if i < old_notes.len() {
                    assert(old_notes[i] == self.notes@[i]);
                }
            }
            lemma_ids_under_insert(pre.owners, Some(caller@), id);
            assert(!pre.notes.contains_key(id));
            assert(owner_index_exact(self@));
            assert(share_index_exact(self@)) by {
                assert forall|s: SubjectView, x: NoteId| #[trigger]
                    ids_under(self@.shares, s).contains(x) <==> (self@.notes.contains_key(x)
                        && self@.notes[x].rules.contains_key(s)) by {
                    assert(ids_under(pre.shares, s).contains(x) <==> (pre.notes.contains_key(x)
                        && pre.notes[x].rules.contains_key(s)));
                }
            }
            assert(self@ =~= pre.after_create(caller@, now));
        }
        Ok(id)
    }
    fn replace_note(&mut self, i: usize, n: EncryptedNote)
        requires
            old(self).wf(),
            i < old(self).notes@.len(),
            n.wf(),
            n@.id == old(self).notes@[i as int]@.id,
            n@.owner == old(self).notes@[i as int]@.owner,
            n@.rules.dom() == old(self).notes@[i as int]@.rules.dom(),
        ensures
            final(self).wf(),
            final(self)@ == old(self)@.with_note(n@.id, n@),
    {
        let ghost pre = self@;
        let ghost ns = self.notes@;
        proof {
            lemma_notes_facts(ns);
            lemma_notes_update(ns, i as int, n);
            lemma_exact_with_note(pre, n@.id, n@);
        }
        self.notes.set(i, n);
        proof {
            assert forall|j: int| 0 <= j < self.notes@.len() implies (#[trigger] self.notes@[j])@.id
                < self.next_id by {
                assert(ns[j]@.id < self.next_id);
            }
            assert forall|j: int| 0 <= j < self.notes@.len() implies (#[trigger] self.notes@[j]).wf() by {
                if j != i {
                    assert(ns[j] == self.notes@[j]);
                }
            }
            assert(self@ =~= pre.with_note(n@.id, n@));
        }
    }

    /// Sets the data and the encrypted text of note `id`, as `caller` at
    /// `now`. Refused for an unknown note, for a caller who may not read it,
    /// for anyone but the owner once it is locked, and for an encrypted text
    /// longer than allowed.
    pub fn update_note(
        &mut self,
        caller: &String,
        id: NoteId,
        data: String,
        encrypted_text: String,
        now: u64,
    ) -> (r: Result<(), NoteError>)
        requires
            old(self).wf(),
        ensures
            final(self).wf(),
            locks_kept(old(self)@, final(self)@),
            histories_kept(old(self)@, final(self)@),
            ids_fresh(old(self)@, final(self)@),
            r == outcome(old(self)@.update_error(caller@, id, encrypted_text@.len(), now)),
            r is Ok ==> final(self)@ == old(self)@.with_note(
                id,
                old(self)@.notes[id].after_update(caller@, data@, encrypted_text@, now),
            ),
            r is Err ==> final(self)@ == old(self)@,
    {
        let i = match self.find_note(id) {
            Some(i) => i,
            None => {
                return Err(NoteError::NotFound);
            },
        };
        proof {
            assert(self.notes@[i as int].wf());
        }
        if !self.notes[i].is_authorized(caller, now) {
            return Err(NoteError::Unauthorized);
        }
        if !self.notes[i].may_update(caller) {
            return Err(NoteError::AlreadyLocked);
        }
        if exceeds_chars(&encrypted_text, self.limits.max_note_chars) {
            return Err(NoteError::QuotaExceeded);
        }
        let mut note = self.notes[i].copy();
        note.set_data_and_encrypted_text(caller, data, encrypted_text, now);
        self.replace_note(i, note);
        Ok(())
    }

    /// Deletes note `id`, as `caller`. Only the owner may, and only while
    /// the note is unlocked; an unlocked note has no rules, so only the owner
    /// index refers to it.
    pub fn delete_note(&mut self, caller: &String, id: NoteId) -> (r: Result<(), NoteError>)
        requires
            old(self).wf(),
        ensures
            final(self).wf(),
            locks_kept(old(self)@, final(self)@),
            histories_kept(old(self)@, final(self)@),
            ids_fresh(old(self)@, final(self)@),
            r == outcome(old(self)@.delete_error(caller@, id)),
            r is Ok ==> final(self)@ == old(self)@.after_delete(id),
            r is Err ==> final(self)@ == old(self)@,
    {
        let ghost pre = self@;
        let i = match self.find_note(id) {
            Some(i) => i,
            None => {
                return Err(NoteError::NotFound);
            },
        };
        if !self.notes[i].is_owner(caller) {
            return Err(NoteError::Unauthorized);
        }
        if self.notes[i].is_locked() {
            return Err(NoteError::AlreadyLocked);
        }
        let ghost ns = self.notes@;
        let ghost owner = ns[i as int]@.owner;
        proof {
            assert(ns[i as int].wf());
            ns[i as int].lemma_unlocked_unshared();
            lemma_notes_facts(ns);
            lemma_notes_remove(ns, i as int);
        }
        let key = Some(caller.clone());
        self.notes.remove(i);
        self.owners.remove(&key, id);
        proof {
            lemma_ids_under_remove(pre.owners, Some(owner), id);
            assert forall|j: int| 0 <= j < self.notes@.len() implies (#[trigger] self.notes@[j])@.id
                < self.next_id && self.notes@[j].wf() by {
                if j < i {
                    assert(ns[j] == self.notes@[j]);
                } else {
                    assert(ns[j + 1] == self.notes@[j]);
                }
            }
            assert forall|o: SubjectView, x: NoteId| #[trigger]
                ids_under(self@.owners, o).contains(x) <==> (self@.notes.contains_key(x) && o == Some(
                    self@.notes[x].owner,
                )) by {
                assert(ids_under(pre.owners, o).contains(x) <==> (pre.notes.contains_key(x) && o
                    == Some(pre.notes[x].owner)));
            }
            assert forall|s: SubjectView, x: NoteId| #[trigger]
                ids_under(self@.shares, s).contains(x) <==> (self@.notes.contains_key(x)
                    && self@.notes[x].rules.contains_key(s)) by {
                assert(ids_under(pre.shares, s).contains(x) <==> (pre.notes.contains_key(x)
                    && pre.notes[x].rules.contains_key(s)));
            }
            assert(self@ =~= pre.after_delete(id));
        }
        Ok(())
    }
    /// Shares note `id` with `user` (`None`: everyone) from `when` on, as
    /// `caller` at `now`. Only the owner shares, and not with itself; the
    /// lock and the bound on rules per note may refuse it. A share replaces
    /// any earlier rule of the same subject, locks the note, and files the
    /// note under the subject in the share index.
    pub fn add_user(
        &mut self,
        caller: &String,
        id: NoteId,
        user: &Option<String>,
        when: Option<u64>,
        now: u64,
    ) -> (r: Result<(), NoteError>)
        requires
            old(self).wf(),
        ensures
            final(self).wf(),
            locks_kept(old(self)@, final(self)@),
            histories_kept(old(self)@, final(self)@),
            ids_fresh(old(self)@, final(self)@),
            r == outcome(old(self)@.share_error(caller@, id, subject_view(*user))),
            r is Ok ==> final(self)@ == old(self)@.after_share(id, subject_view(*user), when, now),
            r is Err ==> final(self)@ == old(self)@,
    {
        let ghost pre = self@;
        let ghost subject = subject_view(*user);
        let i = match self.find_note(id) {
            Some(i) => i,
            None => {
                return Err(NoteError::NotFound);
            },
        };
        proof {
            assert(self.notes@[i as int].wf());
        }
        if !self.notes[i].is_owner(caller) {
            return Err(NoteError::Unauthorized);
        }
        let to_self = match user {
            Some(u) => *u == *caller,
            None => false,
        };
        if to_self {
            return Err(NoteError::Unauthorized);
        }
        if self.notes[i].share_refused(user) {
            return Err(NoteError::AlreadyLocked);
        }
        if !self.notes[i].has_rule(user) && self.notes[i].share_count()
            >= self.limits.max_shares_per_note {
            return Err(NoteError::QuotaExceeded);
        }
        let mut note = self.notes[i].copy();
        let ghost before = note@;
        note.add_reader(user, when, now);
        let ghost ns = self.notes@;
        proof {
            lemma_notes_facts(ns);
            lemma_notes_update(ns, i as int, note);
        }
        self.notes.set(i, note);
        self.shares.insert(user, id);
        proof {
            lemma_ids_under_insert(pre.shares, subject, id);
            assert forall|j: int| 0 <= j < self.notes@.len() implies (#[trigger] self.notes@[j])@.id
                < self.next_id && self.notes@[j].wf() by {
                if j != i {
                    assert(ns[j] == self.notes@[j]);
                }
            }
            assert forall|o: SubjectView, x: NoteId| #[trigger]
                ids_under(self@.owners, o).contains(x) <==> (self@.notes.contains_key(x) && o == Some(
                    self@.notes[x].owner,
                )) by {
                assert(ids_under(pre.owners, o).contains(x) <==> (pre.notes.contains_key(x) && o
                    == Some(pre.notes[x].owner)));
            }
            assert forall|s: SubjectView, x: NoteId| #[trigger]
                ids_under(self@.shares, s).contains(x) <==> (self@.notes.contains_key(x)
                    && self@.notes[x].rules.contains_key(s)) by {
                assert(ids_under(pre.shares, s).contains(x) <==> (pre.notes.contains_key(x)
                    && pre.notes[x].rules.contains_key(s)));
            }
            assert(self@ =~= pre.after_share(id, subject, when, now));
        }
        Ok(())
    }

    /// Removes the rule of `user` (`None`: everyone) from note `id`, as
    /// `caller` at `now`. Only the owner may, and the lock may refuse it.
    /// Removing a rule that is not there succeeds and changes nothing.
    pub fn remove_user(&mut self, caller: &String, id: NoteId, user: &Option<String>, now: u64) -> (r:
        Result<(), NoteError>)
        requires
            old(self).wf(),
        ensures
            final(self).wf(),
            locks_kept(old(self)@, final(self)@),
            histories_kept(old(self)@, final(self)@),
            ids_fresh(old(self)@, final(self)@),
            r == outcome(old(self)@.unshare_error(caller@, id, subject_view(*user))),
            r is Ok ==> final(self)@ == old(self)@.after_unshare(id, subject_view(*user), now),
            r is Err ==> final(self)@ == old(self)@,
    {
        let ghost pre = self@;
        let ghost subject = subject_view(*user);
        let i = match self.find_note(id) {
            Some(i) => i,
            None => {
                return Err(NoteError::NotFound);
            },
        };
        proof {
            assert(self.notes@[i as int].wf());
        }
        if !self.notes[i].is_owner(caller) {
            return Err(NoteError::Unauthorized);
        }
        if self.notes[i].unshare_refused(user) {
            return Err(NoteError::AlreadyLocked);
        }
        if !self.notes[i].has_rule(user) {
            return Ok(());
        }
        let mut note = self.notes[i].copy();
        note.remove_reader(user, now);
        let ghost ns = self.notes@;
        proof {
            lemma_notes_facts(ns);
            lemma_notes_update(ns, i as int, note);
        }
        self.notes.set(i, note);
        self.shares.remove(user, id);
        proof {
            lemma_ids_under_remove(pre.shares, subject, id);
            assert forall|j: int| 0 <= j < self.notes@.len() implies (#[trigger] self.notes@[j])@.id
                < self.next_id && self.notes@[j].wf() by {
                if j != i {
                    assert(ns[j] == self.notes@[j]);
                }
            }
            assert forall|o: SubjectView, x: NoteId| #[trigger]
                ids_under(self@.owners, o).contains(x) <==> (self@.notes.contains_key(x) && o == Some(
                    self@.notes[x].owner,
                )) by {
                assert(ids_under(pre.owners, o).contains(x) <==> (pre.notes.contains_key(x) && o
                    == Some(pre.notes[x].owner)));
            }
            assert forall|s: SubjectView, x: NoteId| #[trigger]
                ids_under(self@.shares, s).contains(x) <==> (self@.notes.contains_key(x)
                    && self@.notes[x].rules.contains_key(s)) by {
                assert(ids_under(pre.shares, s).contains(x) <==> (pre.notes.contains_key(x)
                    && pre.notes[x].rules.contains_key(s)));
            }
            assert(self@ =~= pre.after_unshare(id, subject, now));
        }
        Ok(())
    }

    /// Authorizes `caller` to have the key of note `id` at `now` and returns
    /// the derivation input of that key. A reader's first request is recorded
    /// as a read (which locks the note); later requests, and the owner's,
    /// change nothing.
    pub fn request_key(&mut self, caller: &String, id: NoteId, now: u64) -> (r: Result<Vec<u8>, NoteError>)
        requires
            old(self).wf(),
        ensures
            final(self).wf(),
            locks_kept(old(self)@, final(self)@),
            histories_kept(old(self)@, final(self)@),
            ids_fresh(old(self)@, final(self)@),
            match old(self)@.key_error(caller@, id, now) {
                Some(e) => r == Err::<Vec<u8>, NoteError>(e) && final(self)@ == old(self)@,
                None => (r matches Ok(k) && k@ == derivation_id_of(id, old(self)@.notes[id].owner))
                    && final(self)@ == old(self)@.after_key_request(caller@, id, now),
            },
    {
        let ghost pre = self@;
        let i = match self.find_note(id) {
            Some(i) => i,
            None => {
                return Err(NoteError::NotFound);
            },
        };
        proof {
            assert(self.notes@[i as int].wf());
        }
        let access = self.notes[i].access(caller, now);
        if access == Access::Denied {
            return Err(NoteError::Unauthorized);
        }
        let owner = self.notes[i].owner();
        if access == Access::Owner {
            if self.notes[i].user_read_when(caller).is_none() {
                let mut note = self.notes[i].copy();
                note.record_owner_read(now);
                self.replace_note(i, note);
            }
        } else if !self.notes[i].user_read(caller) {
            let mut note = self.notes[i].copy();
            note.lock_authorized(caller, now);
            proof {
                let n = pre.notes[id];
                let subj = n.read_subject(caller@, now);
                assert(n.rules.insert(subj, crate::rule::PrincipalRule { when: n.rules[subj].when, was_read: true }).dom()
                    =~= n.rules.dom());
            }
            self.replace_note(i, note);
        }
        Ok(derivation_id(id, &owner))
    }

    /// The notes visible to `caller` at `now`, in ascending order of
    /// identifier, each once: those it owns, those shared with it by a rule
    /// in force, and those shared with everyone by a rule in force. A rule
    /// naming the caller that is not yet in force does not hide a note that
    /// the rule for everyone shows.
    pub fn get_notes(&self, caller: &String, now: u64) -> (r: Vec<EncryptedNote>)
        requires
            self.wf(),
        ensures
            forall|j: int|
                0 <= j < r@.len() ==> self@.notes.contains_key((#[trigger] r@[j])@.id)
                    && self@.notes[r@[j]@.id] == r@[j]@ && visible(r@[j]@, caller@, now),
            forall|a: int, b: int| 0 <= a < b < r@.len() ==> r@[a]@.id < r@[b]@.id,
            forall|id: NoteId|
                #[trigger] self@.notes.contains_key(id) && visible(self@.notes[id], caller@, now)
                    ==> exists|j: int| 0 <= j < r@.len() && r@[j]@.id == id,
    {
        let mut out: Vec<EncryptedNote> = Vec::new();
        let ghost mut picked: Seq<int> = Seq::empty();
        let mut i: usize = 0;
        while i < self.notes.len()
            invariant
                i <= self.notes@.len(),
                self.wf(),
                picked.len() == out@.len(),
                forall|j: int|
                    0 <= j < out@.len() ==> 0 <= #[trigger] picked[j] < i && out@[j]@ == self.notes@[picked[j]]@
                        && visible(self.notes@[picked[j]]@, caller@, now),
                forall|a: int, b: int| 0 <= a < b < picked.len() ==> picked[a] < picked[b],
                forall|k: int|
                    0 <= k < i && visible(#[trigger] self.notes@[k]@, caller@, now) ==> exists|j: int|
                        0 <= j < picked.len() && picked[j] == k,
            decreases self.notes@.len() - i,
        {
            proof {
                assert(self.notes@[i as int].wf());
            }
            if self.notes[i].is_listed(caller, now) {
                let c = self.notes[i].copy();
                out.push(c);
                proof {
                    let before = picked;
                    picked = picked.push(i as int);
                    assert forall|k: int|
                        0 <= k < i + 1 && visible(#[trigger] self.notes@[k]@, caller@, now) implies exists|j: int|
                            0 <= j < picked.len() && picked[j] == k by {
                        if k < i {
                            let j = choose|j: int| 0 <= j < before.len() && before[j] == k;
                            assert(picked[j] == k);
                        } else {
                            assert(picked[before.len() as int] == k);
                        }
                    }
                }
            }
            i += 1;
        }
        proof {
            lemma_notes_facts(self.notes@);
            assert forall|j: int|
                0 <= j < out@.len() implies self@.notes.contains_key((#[trigger] out@[j])@.id)
                    && self@.notes[out@[j]@.id] == out@[j]@ && visible(out@[j]@, caller@, now) by {
                let k = picked[j];
                assert(self@.notes[self.notes@[k]@.id] == self.notes@[k]@);
            }
            assert forall|a: int, b: int| 0 <= a < b < out@.len() implies out@[a]@.id < out@[b]@.id by {
                assert(picked[a] < picked[b]);
            }
            assert forall|id: NoteId|
                #[trigger] self@.notes.contains_key(id) && visible(self@.notes[id], caller@, now)
                    implies exists|j: int| 0 <= j < out@.len() && out@[j]@.id == id by {
                let k = choose|k: int| 0 <= k < self.notes@.len() && self.notes@[k]@.id == id;
                assert(visible(self.notes@[k]@, caller@, now));
                let j = choose|j: int| 0 <= j < picked.len() && picked[j] == k;
                assert(out@[j]@.id == id);
            }
        }
        out
    }
    /// A copy of note `id`, if there is one.
    pub fn note(&self, id: NoteId) -> (r: Option<EncryptedNote>)
        requires
            self.wf(),
        ensures
            match r {
                Some(n) => self@.notes.contains_key(id) && n@ == self@.notes[id],
                None => !self@.notes.contains_key(id),
            },
    {
        match self.find_note(id) {
            Some(i) => Some(self.notes[i].copy()),
            None => None,
        }
    }

    /// The identifiers of the notes of `owner`, in the order of creation.
    pub fn owned_ids(&self, owner: &String) -> (r: NoteIds)
        requires
            self.wf(),
        ensures
            r@.to_set() == ids_under(self@.owners, Some(owner@)),
    {
        self.owners.get(&Some(owner.clone()))
    }

    /// The identifiers of the notes with a rule for `subject` (`None`:
    /// everyone), in the order of sharing.
    pub fn shared_ids(&self, subject: &Option<String>) -> (r: NoteIds)
        requires
            self.wf(),
        ensures
            r@.to_set() == ids_under(self@.shares, subject_view(*subject)),
    {
        self.shares.get(subject)
    }

    /// How many owners have notes.
    pub fn owner_count(&self) -> (r: usize)
        requires
            self.wf(),
        ensures
            r == self@.owners.dom().len(),
    {
        self.owners.len()
    }

    /// The identifier the next note will get.
    pub fn next_id(&self) -> (r: NoteId)
        ensures
            r == self@.next_id,
    {
        self.next_id
    }
    /// Only the owner may read or change an unlocked note: anyone else is
    /// refused as unauthorized.
    pub proof fn lemma_unlocked_owner_only(&self, who: Seq<char>, id: NoteId, text_len: nat, now: u64)
        requires
            self.wf(),
            self@.notes.contains_key(id),
            !self@.notes[id].locked,
            who != self@.notes[id].owner,
        ensures
            !self@.notes[id].authorized(who, now),
            self@.key_error(who, id, now) == Some(NoteError::Unauthorized),
            self@.update_error(who, id, text_len, now) == Some(NoteError::Unauthorized),
    {
        self.lemma_indices_exact();
        assert(!self@.notes[id].rules.contains_key(Some(who)));
        assert(!self@.notes[id].rules.contains_key(None));
    }
}

} // verus!
