//! A note: its owner, its opaque payload, its sharing rules, its lock and its
//! audit history, with the rules that decide who may read or change it.
use vstd::prelude::*;
use crate::assoc::{
    assoc, keys_unique, lemma_assoc_facts, lemma_assoc_push, lemma_assoc_push_unique,
    lemma_assoc_remove, lemma_assoc_update,
};
use crate::history::{Action, HistoryEntry, HistoryView};
use crate::rule::{
    copy_subject, rule_valid, same_subject, subject_view, NoteId, PrincipalEntry, PrincipalRule,
    SubjectView,
};

verus! {

/// How a principal reaches a note.
#[derive(Clone, Copy, Debug, PartialEq, Eq, Structural)]
pub enum Access {
    /// The principal owns the note.
    Owner,
    /// A rule naming the principal grants access now.
    DirectShare,
    /// No rule names the principal, and the rule for everyone grants access now.
    WildcardShare,
    /// None of the above.
    Denied,
}

/// The model of a note.
#[verifier::ext_equal]
pub struct NoteView {
    pub id: NoteId,
    pub encrypted_text: Seq<char>,
    pub data: Seq<char>,
    pub owner: Seq<char>,
    pub rules: Map<SubjectView, PrincipalRule>,
    pub locked: bool,
    pub read_by: Set<Seq<char>>,
    pub created_at: u64,
    pub updated_at: u64,
    pub history: Seq<HistoryView>,
}

/// The subjects of a sequence of rule entries.
pub open spec fn keys_of(users: Seq<PrincipalEntry>) -> Seq<SubjectView> {
    users.map_values(|e: PrincipalEntry| e.subject())
}

/// The rules of a sequence of rule entries.
pub open spec fn vals_of(users: Seq<PrincipalEntry>) -> Seq<PrincipalRule> {
    users.map_values(|e: PrincipalEntry| e.rule)
}

/// The rules that a sequence of entries holds, by subject.
pub open spec fn rules_of(users: Seq<PrincipalEntry>) -> Map<SubjectView, PrincipalRule> {
    assoc(keys_of(users), vals_of(users))
}

/// The principals that a sequence of names holds.
pub open spec fn readers_of(names: Seq<String>) -> Set<Seq<char>> {
    names.map_values(|s: String| s@).to_set()
}

/// The model of a sequence of history entries.
pub open spec fn entries_of(h: Seq<HistoryEntry>) -> Seq<HistoryView> {
    h.map_values(|e: HistoryEntry| e@)
}

/// The model of a note that `owner` has just created.
pub open spec fn created_view(id: NoteId, owner: Seq<char>, now: u64) -> NoteView {
    NoteView {
        id,
        encrypted_text: Seq::empty(),
        data: Seq::empty(),
        owner,
        rules: Map::empty(),
        locked: false,
        read_by: Set::empty(),
        created_at: now,
        updated_at: now,
        history: seq![HistoryView { action: Action::Created, user: Some(owner), rule: None, created_at: now }],
    }
}

impl NoteView {
    /// How `who` reaches the note at `now`: the owner always; else a rule
    /// naming `who`, which decides alone when it exists; else the rule for
    /// everyone.
    pub open spec fn access(self, who: Seq<char>, now: u64) -> Access {
        if who == self.owner {
            Access::Owner
        } else if self.rules.contains_key(Some(who)) {
            if rule_valid(self.rules[Some(who)], now) {
                Access::DirectShare
            } else {
                Access::Denied
            }
        } else if self.rules.contains_key(None) && rule_valid(self.rules[None], now) {
            Access::WildcardShare
        } else {
            Access::Denied
        }
    }

    /// Whether `who` may read the note at `now`.
    pub open spec fn authorized(self, who: Seq<char>, now: u64) -> bool {
        self.access(who, now) != Access::Denied
    }

    /// Whether the note is listed for `who` at `now`: `who` owns it, or a
    /// rule naming `who` is in force, or the rule for everyone is in force.
    /// Unlike `access`, a rule naming `who` that is not yet in force does not
    /// hide a note that everyone may read.
    pub open spec fn listed(self, who: Seq<char>, now: u64) -> bool {
        who == self.owner || (self.rules.contains_key(Some(who)) && rule_valid(
            self.rules[Some(who)],
            now,
        )) || (self.rules.contains_key(None) && rule_valid(self.rules[None], now))
    }

    /// Whether the history holds a read entry for `who`.
    pub open spec fn has_read_entry(self, who: Seq<char>) -> bool {
        exists|i: int| 0 <= i < self.history.len() && is_read_by(#[trigger] self.history[i], who)
    }

    /// The note after its owner's read at `now` was recorded: the history
    /// gains a read entry for the owner, and nothing else changes.
    pub open spec fn after_owner_read(self, now: u64) -> NoteView {
        NoteView {
            history: self.history.push(
                HistoryView { action: Action::Read, user: Some(self.owner), rule: None, created_at: now },
            ),
            ..self
        }
    }

    /// The subject of the rule through which `who` reads at `now`.
    pub open spec fn read_subject(self, who: Seq<char>, now: u64) -> SubjectView {
        if self.access(who, now) == Access::DirectShare {
            Some(who)
        } else {
            None
        }
    }

    /// The note after a non-owner `who` read it at `now`: the rule used is
    /// marked read, `who` joins the readers, the note locks, and the history
    /// records the read (as the read that locks it for readers when nobody
    /// had read it before).
    pub open spec fn after_read(self, who: Seq<char>, now: u64) -> NoteView {
        let subject = self.read_subject(who, now);
        let when = self.rules[subject].when;
        NoteView {
            rules: self.rules.insert(subject, PrincipalRule { when, was_read: true }),
            read_by: self.read_by.insert(who),
            locked: true,
            history: self.history.push(
                HistoryView {
                    action: if self.read_by.is_empty() { Action::ReadLocked } else { Action::Read },
                    user: Some(who),
                    rule: Some((subject, when)),
                    created_at: now,
                },
            ),
            ..self
        }
    }

    /// Whether sharing with `subject` is refused: the owner needs no rule,
    /// and once locked the note is shared neither with everyone nor again
    /// with a principal that has read it.
    pub open spec fn share_refused(self, subject: SubjectView) -> bool {
        subject == Some(self.owner) || (self.locked && (subject.is_none() || self.read_by.contains(
            subject.unwrap(),
        )))
    }

    /// The note after a share with `subject` from `when` on, at `now`: the
    /// rule is set, the note locks (the history says so first if it was
    /// unlocked), and the history records the share.
    pub open spec fn after_share(self, subject: SubjectView, when: Option<u64>, now: u64) -> NoteView {
        let shared = HistoryView {
            action: Action::Shared,
            user: subject,
            rule: Some((subject, when)),
            created_at: now,
        };
        let locking = HistoryView { action: Action::Locked, user: None, rule: None, created_at: now };
        NoteView {
            rules: self.rules.insert(subject, PrincipalRule { when, was_read: false }),
            locked: true,
            history: if self.locked {
                self.history.push(shared)
            } else {
                self.history.push(locking).push(shared)
            },
            ..self
        }
    }

    /// Whether removing the rule of `subject` is refused: once locked, a rule
    /// that was read, or the rule of a principal that has read, stays.
    pub open spec fn unshare_refused(self, subject: SubjectView) -> bool {
        self.locked && ((subject.is_some() && self.read_by.contains(subject.unwrap())) || (
        self.rules.contains_key(subject) && self.rules[subject].was_read))
    }

    /// The note after the rule of `subject` was removed at `now`.
    pub open spec fn after_unshare(self, subject: SubjectView, now: u64) -> NoteView {
        NoteView {
            rules: self.rules.remove(subject),
            history: self.history.push(
                HistoryView { action: Action::Unshared, user: subject, rule: None, created_at: now },
            ),
            ..self
        }
    }

    /// Whether `who` may change the payload: anyone the caller let through
    /// while unlocked, the owner alone once locked.
    pub open spec fn may_update(self, who: Seq<char>) -> bool {
        !self.locked || who == self.owner
    }

    /// The note after `who` set its payload at `now`.
    pub open spec fn after_update(
        self,
        who: Seq<char>,
        data: Seq<char>,
        encrypted_text: Seq<char>,
        now: u64,
    ) -> NoteView {
        NoteView {
            data,
            encrypted_text,
            updated_at: now,
            history: self.history.push(
                HistoryView { action: Action::Updated, user: Some(who), rule: None, created_at: now },
            ),
            ..self
        }
    }
}

/// An encrypted note with its access rules and history.
#[derive(Clone, Debug, PartialEq, Eq)]
pub struct EncryptedNote {
    id: NoteId,
    encrypted_text: String,
    data: String,
    owner: String,
    users: Vec<PrincipalEntry>,
    locked: bool,
    read_by: Vec<String>,
    created_at: u64,
    updated_at: u64,
    history: Vec<HistoryEntry>,
}

impl View for EncryptedNote {
    type V = NoteView;

    closed spec fn view(&self) -> NoteView {
        NoteView {
            id: self.id,
            encrypted_text: self.encrypted_text@,
            data: self.data@,
            owner: self.owner@,
            rules: rules_of(self.users@),
            locked: self.locked,
            read_by: readers_of(self.read_by@),
            created_at: self.created_at,
            updated_at: self.updated_at,
            history: entries_of(self.history@),
        }
    }
}

proof fn lemma_rules_facts(users: Seq<PrincipalEntry>)
    requires
        keys_unique(keys_of(users)),
    ensures
        forall|i: int|
            0 <= i < users.len() ==> rules_of(users).contains_key(#[trigger] users[i].subject())
                && rules_of(users)[users[i].subject()] == users[i].rule,
        forall|k: SubjectView| #[trigger]
            rules_of(users).contains_key(k) <==> exists|i: int|
                0 <= i < users.len() && users[i].subject() == k,
{
    lemma_assoc_facts(keys_of(users), vals_of(users));
    assert forall|i: int| 0 <= i < users.len() implies rules_of(users).contains_key(
        #[trigger] users[i].subject(),
    ) && rules_of(users)[users[i].subject()] == users[i].rule by {
        assert(keys_of(users)[i] == users[i].subject());
    }
    assert forall|k: SubjectView| #[trigger]
        rules_of(users).contains_key(k) implies exists|i: int|
            0 <= i < users.len() && users[i].subject() == k by {
        let i = choose|i: int| 0 <= i < keys_of(users).len() && keys_of(users)[i] == k;
        assert(users[i].subject() == k);
    }
}

proof fn lemma_rules_push(users: Seq<PrincipalEntry>, e: PrincipalEntry)
    requires
        keys_unique(keys_of(users)),
        !rules_of(users).contains_key(e.subject()),
    ensures
        keys_unique(keys_of(users.push(e))),
        rules_of(users.push(e)) == rules_of(users).insert(e.subject(), e.rule),
{
    assert(keys_of(users.push(e)) =~= keys_of(users).push(e.subject()));
    assert(vals_of(users.push(e)) =~= vals_of(users).push(e.rule));
    lemma_assoc_push_unique(keys_of(users), vals_of(users), e.subject(), e.rule);
    lemma_assoc_push(keys_of(users), vals_of(users), e.subject(), e.rule);
}

proof fn lemma_rules_update(users: Seq<PrincipalEntry>, i: int, e: PrincipalEntry)
    requires
        keys_unique(keys_of(users)),
        0 <= i < users.len(),
        e.subject() == users[i].subject(),
    ensures
        keys_of(users.update(i, e)) == keys_of(users),
        rules_of(users.update(i, e)) == rules_of(users).insert(e.subject(), e.rule),
{
    assert(keys_of(users.update(i, e)) =~= keys_of(users));
    assert(vals_of(users.update(i, e)) =~= vals_of(users).update(i, e.rule));
    lemma_assoc_update(keys_of(users), vals_of(users), i, e.rule);
}

proof fn lemma_rules_remove(users: Seq<PrincipalEntry>, i: int)
    requires
        keys_unique(keys_of(users)),
        0 <= i < users.len(),
    ensures
        keys_unique(keys_of(users.remove(i))),
        rules_of(users.remove(i)) == rules_of(users).remove(users[i].subject()),
{
    assert(keys_of(users.remove(i)) =~= keys_of(users).remove(i));
    assert(vals_of(users.remove(i)) =~= vals_of(users).remove(i));
    lemma_assoc_remove(keys_of(users), vals_of(users), i);
}

proof fn lemma_readers_push(names: Seq<String>, s: String)
    ensures
        readers_of(names.push(s)) == readers_of(names).insert(s@),
{
    let m = names.map_values(|x: String| x@);
    assert(names.push(s).map_values(|x: String| x@) =~= m.push(s@));
    assert(readers_of(names.push(s)) =~= readers_of(names).insert(s@)) by {
        assert forall|p: Seq<char>| readers_of(names).insert(s@).contains(p) implies readers_of(
            names.push(s),
        ).contains(p) by {
            if p == s@ {
                assert(m.push(s@)[m.len() as int] == p);
            } else {
                let j = choose|j: int| 0 <= j < m.len() && m[j] == p;
                assert(m.push(s@)[j] == p);
            }
        }
    }
}

proof fn lemma_entries_push(h: Seq<HistoryEntry>, e: HistoryEntry)
    ensures
        entries_of(h.push(e)) == entries_of(h).push(e@),
{
    assert(entries_of(h.push(e)) =~= entries_of(h).push(e@));
}

impl EncryptedNote {
    /// The internal invariant: one rule per subject, none for the owner, and
    /// while unlocked nobody has read the note.
    pub closed spec fn wf(&self) -> bool {
        &&& keys_unique(keys_of(self.users@))
        &&& !self@.rules.contains_key(Some(self@.owner))
        &&& !self@.locked ==> self@.read_by.is_empty() && forall|k: SubjectView|
            !(#[trigger] self@.rules.contains_key(k))
    }

    /// A new note of `owner` with identifier `id`, created at `now`.
    pub fn create(id: NoteId, owner: String, now: u64) -> (r: Self)
        ensures
            r.wf(),
            r@ == created_view(id, owner@, now),
    {
        let first = HistoryEntry {
            action: Action::Created,
            user: Some(owner.clone()),
            rule: None,
            created_at: now,
        };
        let note = EncryptedNote {
            id,
            encrypted_text: String::new(),
            data: String::new(),
            owner,
            users: Vec::new(),
            locked: false,
            read_by: Vec::new(),
            created_at: now,
            updated_at: now,
            history: vec![first],
        };
        proof {
            assert(rules_of(note.users@) == Map::<SubjectView, PrincipalRule>::empty());
            assert(readers_of(note.read_by@) =~= Set::<Seq<char>>::empty());
            assert(entries_of(note.history@) =~= created_view(id, note.owner@, now).history);
        }
        note
    }

    /// The position of the rule for `subject`, if there is one.
    fn find_rule(&self, subject: &Option<String>) -> (r: Option<usize>)
        requires
            self.wf(),
        ensures
            match r {
                Some(i) => i < self.users@.len() && self.users@[i as int].subject() == subject_view(
                    *subject,
                ) && self@.rules.contains_key(subject_view(*subject))
                    && self@.rules[subject_view(*subject)] == self.users@[i as int].rule,
                None => !self@.rules.contains_key(subject_view(*subject)),
            },
    {
        proof {
            lemma_rules_facts(self.users@);
        }
        let mut i: usize = 0;
        while i < self.users.len()
            invariant
                i <= self.users@.len(),
                self.wf(),
                forall|j: int| 0 <= j < i ==> self.users@[j].subject() != subject_view(*subject),
            decreases self.users@.len() - i,
        {
            if same_subject(&self.users[i].name, subject) {
                proof {
                    lemma_rules_facts(self.users@);
                    let e = self.users@[i as int];
                    assert(rules_of(self.users@).contains_key(e.subject()));
                }
                return Some(i);
            }
            i += 1;
        }
        None
    }

    /// Whether `user` has read the note.
    pub fn user_read(&self, user: &String) -> (r: bool)
        ensures
            r == self@.read_by.contains(user@),
    {
        let mut i: usize = 0;
        while i < self.read_by.len()
            invariant
                i <= self.read_by@.len(),
                forall|j: int| 0 <= j < i ==> self.read_by@[j]@ != user@,
            decreases self.read_by@.len() - i,
        {
            if self.read_by[i] == *user {
                proof {
                    assert(self.read_by@.map_values(|s: String| s@)[i as int] == user@);
                }
                return true;
            }
            i += 1;
        }
        proof {
            let m = self.read_by@.map_values(|s: String| s@);
            assert forall|j: int| 0 <= j < m.len() implies m[j] != user@ by {
                assert(m[j] == self.read_by@[j]@);
            }
        }
        false
    }

    /// How `user` reaches the note at `now`.
    pub fn access(&self, user: &String, now: u64) -> (r: Access)
        requires
            self.wf(),
        ensures
            r == self@.access(user@, now),
    {
        if *user == self.owner {
            return Access::Owner;
        }
        let direct = Some(user.clone());
        match self.find_rule(&direct) {
            Some(i) => {
                if self.users[i].rule.is_valid_at(now) {
                    Access::DirectShare
                } else {
                    Access::Denied
                }
            },
            None => match self.find_rule(&None) {
                Some(i) => {
                    if self.users[i].rule.is_valid_at(now) {
                        Access::WildcardShare
                    } else {
                        Access::Denied
                    }
                },
                None => Access::Denied,
            },
        }
    }

    /// Whether `user` may read the note at `now`: the owner always; else the
    /// rule naming `user` if there is one; else the rule for everyone.
    pub fn is_authorized(&self, user: &String, now: u64) -> (r: bool)
        requires
            self.wf(),
        ensures
            r == self@.authorized(user@, now),
    {
        let a = self.access(user, now);
        match a {
            Access::Denied => false,
            _ => true,
        }
    }
    /// Like `is_authorized`, and a non-owner who may read is recorded as a
    /// reader: the rule used is marked read, the note locks, and the history
    /// gains a read entry. The owner passes without any change.
    pub fn lock_authorized(&mut self, user: &String, now: u64) -> (r: bool)
        requires
            old(self).wf(),
        ensures
            final(self).wf(),
            old(self)@.locked ==> final(self)@.locked,
            r == old(self)@.authorized(user@, now),
            r && old(self)@.access(user@, now) != Access::Owner ==> final(self)@ == old(self)@.after_read(user@, now),
            !r || old(self)@.access(user@, now) == Access::Owner ==> final(self)@ == old(self)@,
    {
        let ghost pre = self@;
        let ghost pre_users = self.users@;
        let a = self.access(user, now);
        let subject = match a {
            Access::Owner => {
                return true;
            },
            Access::Denied => {
                return false;
            },
            Access::DirectShare => Some(user.clone()),
            Access::WildcardShare => None,
        };
        let i = match self.find_rule(&subject) {
            Some(i) => i,
            None => {
                return false;
            },
        };
        let when = self.users[i].rule.when;
        let entry = PrincipalEntry {
            name: copy_subject(&subject),
            rule: PrincipalRule { when, was_read: true },
        };
        self.users.set(i, entry);
        proof {
            lemma_rules_update(pre_users, i as int, entry);
        }
        let action = if self.read_by.len() == 0 {
            Action::ReadLocked
        } else {
            Action::Read
        };
        proof {
            if self.read_by@.len() == 0 {
                assert(readers_of(self.read_by@) =~= Set::empty());
            } else {
                assert(readers_of(self.read_by@).contains(self.read_by@[0]@)) by {
                    assert(self.read_by@.map_values(|s: String| s@)[0] == self.read_by@[0]@);
                }
            }
        }
        let h = HistoryEntry {
            action,
            user: Some(user.clone()),
            rule: Some((subject, when)),
            created_at: now,
        };
        let ghost old_history = self.history@;
        self.history.push(h);
        proof {
            lemma_entries_push(old_history, h);
        }
        if !self.user_read(user) {
            let ghost old_readers = self.read_by@;
            self.read_by.push(user.clone());
            proof {
                lemma_readers_push(old_readers, *user);
            }
        } else {
            proof {
                assert(pre.read_by.insert(user@) =~= pre.read_by);
            }
        }
        self.locked = true;
        proof {
            assert(self@ =~= pre.after_read(user@, now));
        }
        true
    }

    /// Shares the note with `user` (`None`: everyone) from `when` on. Refused
    /// for the owner, and once locked for everyone and for a principal that
    /// has read the note. Otherwise the rule is set (replacing any earlier
    /// one for that subject), the note locks, and the history records it.
    pub fn add_reader(&mut self, user: &Option<String>, when: Option<u64>, now: u64) -> (r: bool)
        requires
            old(self).wf(),
        ensures
            final(self).wf(),
            old(self)@.locked ==> final(self)@.locked,
            r == !old(self)@.share_refused(subject_view(*user)),
            r ==> final(self)@ == old(self)@.after_share(subject_view(*user), when, now),
            !r ==> final(self)@ == old(self)@,
    {
        let ghost pre = self@;
        let ghost pre_users = self.users@;
        let is_owner = match user {
            Some(u) => *u == self.owner,
            None => false,
        };
        if is_owner {
            return false;
        }
        if self.locked {
            let refused = match user {
                Some(u) => self.user_read(u),
                None => true,
            };
            if refused {
                return false;
            }
        }
        let found = self.find_rule(user);
        if !self.locked {
            let lock_entry = HistoryEntry { action: Action::Locked, user: None, rule: None, created_at: now };
            let ghost h0 = self.history@;
            self.history.push(lock_entry);
            proof {
                lemma_entries_push(h0, lock_entry);
            }
            self.locked = true;
        }
        let shared = HistoryEntry {
            action: Action::Shared,
            user: copy_subject(user),
            rule: Some((copy_subject(user), when)),
            created_at: now,
        };
        let ghost h1 = self.history@;
        self.history.push(shared);
        proof {
            lemma_entries_push(h1, shared);
        }
        let entry = PrincipalEntry {
            name: copy_subject(user),
            rule: PrincipalRule { when, was_read: false },
        };
        match found {
            Some(i) => {
                self.users.set(i, entry);
                proof {
                    lemma_rules_update(pre_users, i as int, entry);
                }
            },
            None => {
                self.users.push(entry);
                proof {
                    lemma_rules_push(pre_users, entry);
                }
            },
        }
        proof {
            assert(self@ =~= pre.after_share(subject_view(*user), when, now));
        }
        true
    }

    /// Removes the rule of `user` (`None`: everyone). Refused once locked if
    /// that rule was read or `user` has read the note; false as well when
    /// there is no such rule. On success the history records it.
    pub fn remove_reader(&mut self, user: &Option<String>, now: u64) -> (r: bool)
        requires
            old(self).wf(),
        ensures
            final(self).wf(),
            old(self)@.locked ==> final(self)@.locked,
            r == (!old(self)@.unshare_refused(subject_view(*user)) && old(self)@.rules.contains_key(
                subject_view(*user),
            )),
            r ==> final(self)@ == old(self)@.after_unshare(subject_view(*user), now),
            !r ==> final(self)@ == old(self)@,
    {
        let ghost pre = self@;
        let ghost pre_users = self.users@;
        let found = self.find_rule(user);
        if self.locked {
            let read = match user {
                Some(u) => self.user_read(u),
                None => false,
            };
            if read {
                return false;
            }
            match found {
                Some(i) => {
                    if self.users[i].rule.was_read {
                        return false;
                    }
                },
                None => {},
            }
        }
        match found {
            Some(i) => {
                self.users.remove(i);
                proof {
                    lemma_rules_remove(pre_users, i as int);
                }
                let h = HistoryEntry {
                    action: Action::Unshared,
                    user: copy_subject(user),
                    rule: None,
                    created_at: now,
                };
                let ghost h0 = self.history@;
                self.history.push(h);
                proof {
                    lemma_entries_push(h0, h);
                    assert(self@ =~= pre.after_unshare(subject_view(*user), now));
                }
                true
            },
            None => false,
        }
    }
    fn record_update(&mut self, user: &String, now: u64)
        ensures
            final(self).users == old(self).users,
            final(self).read_by == old(self).read_by,
            final(self).id == old(self).id,
            final(self).owner == old(self).owner,
            final(self).locked == old(self).locked,
            final(self).created_at == old(self).created_at,
            final(self).data == old(self).data,
            final(self).encrypted_text == old(self).encrypted_text,
            final(self).updated_at == now,
            entries_of(final(self).history@) == entries_of(old(self).history@).push(
                HistoryView { action: Action::Updated, user: Some(user@), rule: None, created_at: now },
            ),
    {
        let h = HistoryEntry {
            action: Action::Updated,
            user: Some(user.clone()),
            rule: None,
            created_at: now,
        };
        let ghost h0 = self.history@;
        self.history.push(h);
        proof {
            lemma_entries_push(h0, h);
        }
        self.updated_at = now;
    }

    /// Replaces the data, as `user` at `now`. Refused once locked unless
    /// `user` is the owner.
    pub fn set_data(&mut self, user: &String, data: String, now: u64) -> (r: bool)
        requires
            old(self).wf(),
        ensures
            final(self).wf(),
            old(self)@.locked ==> final(self)@.locked,
            r == old(self)@.may_update(user@),
            r ==> final(self)@ == old(self)@.after_update(user@, data@, old(self)@.encrypted_text, now),
            !r ==> final(self)@ == old(self)@,
    {
        let ghost pre = self@;
        if self.locked && *user != self.owner {
            return false;
        }
        let ghost d = data@;
        self.data = data;
        self.record_update(user, now);
        proof {
            assert(self@ =~= pre.after_update(user@, d, pre.encrypted_text, now));
        }
        true
    }

    /// Replaces the encrypted text, as `user` at `now`. Refused once locked
    /// unless `user` is the owner.
    pub fn set_encrypted_text(&mut self, user: &String, encrypted_text: String, now: u64) -> (r: bool)
        requires
            old(self).wf(),
        ensures
            final(self).wf(),
            old(self)@.locked ==> final(self)@.locked,
            r == old(self)@.may_update(user@),
            r ==> final(self)@ == old(self)@.after_update(user@, old(self)@.data, encrypted_text@, now),
            !r ==> final(self)@ == old(self)@,
    {
        let ghost pre = self@;
        if self.locked && *user != self.owner {
            return false;
        }
        let ghost t = encrypted_text@;
        self.encrypted_text = encrypted_text;
        self.record_update(user, now);
        proof {
            assert(self@ =~= pre.after_update(user@, pre.data, t, now));
        }
        true
    }

    /// Replaces both the data and the encrypted text, as `user` at `now`.
    /// Refused once locked unless `user` is the owner.
    pub fn set_data_and_encrypted_text(
        &mut self,
        user: &String,
        data: String,
        encrypted_text: String,
        now: u64,
    ) -> (r: bool)
        requires
            old(self).wf(),
        ensures
            final(self).wf(),
            old(self)@.locked ==> final(self)@.locked,
            r == old(self)@.may_update(user@),
            r ==> final(self)@ == old(self)@.after_update(user@, data@, encrypted_text@, now),
            !r ==> final(self)@ == old(self)@,
    {
        let ghost pre = self@;
        if self.locked && *user != self.owner {
            return false;
        }
        let ghost d = data@;
        let ghost t = encrypted_text@;
        self.data = data;
        self.encrypted_text = encrypted_text;
        self.record_update(user, now);
        proof {
            assert(self@ =~= pre.after_update(user@, d, t, now));
        }
        true
    }

    /// The identifier.
    pub fn id(&self) -> (r: NoteId)
        ensures
            r == self@.id,
    {
        self.id
    }

    /// The data.
    pub fn data(&self) -> (r: String)
        ensures
            r@ == self@.data,
    {
        self.data.clone()
    }

    /// The encrypted text.
    pub fn encrypted_text(&self) -> (r: String)
        ensures
            r@ == self@.encrypted_text,
    {
        self.encrypted_text.clone()
    }

    /// The owner.
    pub fn owner(&self) -> (r: String)
        ensures
            r@ == self@.owner,
    {
        self.owner.clone()
    }

    /// Whether the note is locked.
    pub fn locked(&self) -> (r: bool)
        ensures
            r == self@.locked,
    {
        self.locked
    }

    /// Whether the note is locked: shared at least once, or read by someone
    /// other than its owner.
    pub fn is_locked(&self) -> (r: bool)
        ensures
            r == self@.locked,
    {
        self.locked
    }

    /// When the note was created.
    pub fn created_at(&self) -> (r: u64)
        ensures
            r == self@.created_at,
    {
        self.created_at
    }

    /// When the payload was last set.
    pub fn updated_at(&self) -> (r: u64)
        ensures
            r == self@.updated_at,
    {
        self.updated_at
    }

    /// Whether any rule is in place.
    pub fn is_shared(&self) -> (r: bool)
        ensures
            r == !self@.rules.is_empty(),
    {
        proof {
            lemma_assoc_facts(keys_of(self.users@), vals_of(self.users@));
            if self.users@.len() > 0 {
                assert(keys_of(self.users@)[0] == self.users@[0].subject());
                assert(self@.rules.contains_key(self.users@[0].subject()));
            } else {
                assert(self@.rules =~= Map::empty());
            }
        }
        self.users.len() > 0
    }

    /// The rules, one entry per subject.
    pub fn users(&self) -> (r: Vec<PrincipalEntry>)
        ensures
            rules_of(r@) == self@.rules,
            self.wf() ==> keys_unique(keys_of(r@)),
    {
        self.copy_users()
    }

    fn copy_users(&self) -> (r: Vec<PrincipalEntry>)
        ensures
            rules_of(r@) == self@.rules,
            keys_of(r@) == keys_of(self.users@),
    {
        let mut out: Vec<PrincipalEntry> = Vec::new();
        let mut i: usize = 0;
        while i < self.users.len()
            invariant
                i <= self.users@.len(),
                out@.len() == i,
                forall|j: int| 0 <= j < i ==> (#[trigger] out@[j]).subject() == self.users@[j].subject()
                    && out@[j].rule == self.users@[j].rule,
            decreases self.users@.len() - i,
        {
            out.push(self.users[i].copy());
            i += 1;
        }
        proof {
            assert(keys_of(out@) =~= keys_of(self.users@));
            assert(vals_of(out@) =~= vals_of(self.users@));
        }
        out
    }

    /// The principals who have read the note.
    pub fn read_by(&self) -> (r: Vec<String>)
        ensures
            readers_of(r@) == self@.read_by,
    {
        self.copy_readers()
    }

    fn copy_readers(&self) -> (r: Vec<String>)
        ensures
            r@ == self.read_by@,
    {
        let mut out: Vec<String> = Vec::new();
        let mut i: usize = 0;
        while i < self.read_by.len()
            invariant
                i <= self.read_by@.len(),
                out@ == self.read_by@.subrange(0, i as int),
            decreases self.read_by@.len() - i,
        {
            out.push(self.read_by[i].clone());
            proof {
                assert(out@ =~= self.read_by@.subrange(0, i + 1));
            }
            i += 1;
        }
        proof {
            assert(out@ =~= self.read_by@);
        }
        out
    }

    /// The history, oldest entry first.
    pub fn history(&self) -> (r: Vec<HistoryEntry>)
        ensures
            entries_of(r@) == self@.history,
    {
        let mut out: Vec<HistoryEntry> = Vec::new();
        let mut i: usize = 0;
        while i < self.history.len()
            invariant
                i <= self.history@.len(),
                out@.len() == i,
                forall|j: int| 0 <= j < i ==> (#[trigger] out@[j])@ == self.history@[j]@,
            decreases self.history@.len() - i,
        {
            out.push(self.history[i].copy());
            i += 1;
        }
        proof {
            assert(entries_of(out@) =~= entries_of(self.history@));
        }
        out
    }

    /// A copy with the same model.
    pub fn copy(&self) -> (r: Self)
        ensures
            r@ == self@,
            self.wf() ==> r.wf(),
    {
        let users = self.copy_users();
        let read_by = self.copy_readers();
        let history = self.history();
        let r = EncryptedNote {
            id: self.id,
            encrypted_text: self.encrypted_text.clone(),
            data: self.data.clone(),
            owner: self.owner.clone(),
            users,
            locked: self.locked,
            read_by,
            created_at: self.created_at,
            updated_at: self.updated_at,
            history,
        };
        proof {
            assert(r@ =~= self@);
        }
        r
    }

    /// When `user` first read the note, if ever.
    pub fn user_read_when(&self, user: &String) -> (r: Option<u64>)
        ensures
            match r {
                Some(t) => exists|i: int|
                    0 <= i < self@.history.len() && is_read_by(#[trigger] self@.history[i], user@)
                        && self@.history[i].created_at == t && forall|j: int|
                        0 <= j < i ==> !is_read_by(#[trigger] self@.history[j], user@),
                None => forall|i: int|
                    0 <= i < self@.history.len() ==> !is_read_by(#[trigger] self@.history[i], user@),
            },
    {
        let mut i: usize = 0;
        while i < self.history.len()
            invariant
                i <= self.history@.len(),
                forall|j: int| 0 <= j < i ==> !is_read_by(#[trigger] self.history@[j]@, user@),
            decreases self.history@.len() - i,
        {
            let h = &self.history[i];
            let is_read = match h.action {
                Action::Read | Action::ReadLocked => true,
                _ => false,
            };
            let by_user = match &h.user {
                Some(u) => *u == *user,
                None => false,
            };
            if is_read && by_user {
                proof {
                    assert(self@.history[i as int] == self.history@[i as int]@);
                    assert forall|j: int| 0 <= j < i implies !is_read_by(#[trigger] self@.history[j], user@) by {
                        assert(self@.history[j] == self.history@[j]@);
                    }
                }
                return Some(h.created_at);
            }
            i += 1;
        }
        proof {
            assert forall|j: int| 0 <= j < self@.history.len() implies !is_read_by(#[trigger] self@.history[j], user@) by {
                assert(self@.history[j] == self.history@[j]@);
            }
        }
        None
    }
    /// How many rules are in place.
    pub fn share_count(&self) -> (r: usize)
        requires
            self.wf(),
        ensures
            r == self@.rules.dom().len(),
    {
        proof {
            assert(keys_of(self.users@).len() == vals_of(self.users@).len());
            crate::assoc::lemma_assoc_len(keys_of(self.users@), vals_of(self.users@));
        }
        self.users.len()
    }

    /// Whether `user` owns the note.
    pub fn is_owner(&self, user: &String) -> (r: bool)
        ensures
            r == (user@ == self@.owner),
    {
        *user == self.owner
    }

    /// Whether `user` may change the payload.
    pub fn may_update(&self, user: &String) -> (r: bool)
        ensures
            r == self@.may_update(user@),
    {
        !self.locked || *user == self.owner
    }

    /// Whether a rule for `user` (`None`: everyone) is in place.
    pub fn has_rule(&self, user: &Option<String>) -> (r: bool)
        requires
            self.wf(),
        ensures
            r == self@.rules.contains_key(subject_view(*user)),
    {
        self.find_rule(user).is_some()
    }

    /// Whether sharing with `user` (`None`: everyone) would be refused.
    pub fn share_refused(&self, user: &Option<String>) -> (r: bool)
        ensures
            r == self@.share_refused(subject_view(*user)),
    {
        match user {
            Some(u) => *u == self.owner || (self.locked && self.user_read(u)),
            None => self.locked,
        }
    }

    /// Whether removing the rule of `user` (`None`: everyone) would be
    /// refused.
    pub fn unshare_refused(&self, user: &Option<String>) -> (r: bool)
        requires
            self.wf(),
        ensures
            r == self@.unshare_refused(subject_view(*user)),
    {
        if !self.locked {
            return false;
        }
        let read = match user {
            Some(u) => self.user_read(u),
            None => false,
        };
        if read {
            return true;
        }
        match self.find_rule(user) {
            Some(i) => self.users[i].rule.was_read,
            None => false,
        }
    }

    /// Whether `user` may see the note listed at `now`.
    pub fn is_listed(&self, user: &String, now: u64) -> (r: bool)
        requires
            self.wf(),
        ensures
            r == self@.listed(user@, now),
    {
        if *user == self.owner {
            return true;
        }
        let direct = Some(user.clone());
        let by_name = match self.find_rule(&direct) {
            Some(i) => self.users[i].rule.is_valid_at(now),
            None => false,
        };
        if by_name {
            return true;
        }
        match self.find_rule(&None) {
            Some(i) => self.users[i].rule.is_valid_at(now),
            None => false,
        }
    }

    /// Records a read by the owner at `now`: the history gains a read entry
    /// for the owner. Nothing else changes, and the note does not lock.
    pub fn record_owner_read(&mut self, now: u64)
        requires
            old(self).wf(),
        ensures
            final(self).wf(),
            final(self)@ == old(self)@.after_owner_read(now),
    {
        let ghost pre = self@;
        let h = HistoryEntry {
            action: Action::Read,
            user: Some(self.owner.clone()),
            rule: None,
            created_at: now,
        };
        let ghost h0 = self.history@;
        self.history.push(h);
        proof {
            lemma_entries_push(h0, h);
            assert(self@ =~= pre.after_owner_read(now));
        }
    }

    /// A well-formed note holds no rule and has no reader while unlocked.
    pub proof fn lemma_unlocked_unshared(&self)
        requires
            self.wf(),
        ensures
            !self@.locked ==> forall|k: SubjectView| !(#[trigger] self@.rules.contains_key(k)),
            !self@.locked ==> self@.read_by.is_empty(),
            self@.rules.dom().finite(),
    {
        crate::assoc::lemma_assoc_len(keys_of(self.users@), vals_of(self.users@));
    }
}

/// A rule naming `who`, starting at `t`, decides alone: `who` may read
/// exactly from `t` on, whatever the rule for everyone says.
pub proof fn lemma_rule_window(n: NoteView, who: Seq<char>, t: u64, now: u64)
    requires
        who != n.owner,
        n.rules.contains_key(Some(who)),
        n.rules[Some(who)].when == Some(t),
    ensures
        n.authorized(who, now) == (t <= now),
{
}

/// Without a rule naming `who`, a rule for everyone in force lets any
/// non-owner read.
pub proof fn lemma_wildcard_grants(n: NoteView, who: Seq<char>, now: u64)
    requires
        who != n.owner,
        !n.rules.contains_key(Some(who)),
        n.rules.contains_key(None),
        rule_valid(n.rules[None], now),
    ensures
        n.authorized(who, now),
        n.access(who, now) == Access::WildcardShare,
{
}

/// The owner may always read.
pub proof fn lemma_owner_always(n: NoteView, now: u64)
    ensures
        n.authorized(n.owner, now),
        n.access(n.owner, now) == Access::Owner,
{
}

/// Whether an entry records a read by `who`.
pub open spec fn is_read_by(h: HistoryView, who: Seq<char>) -> bool {
    (h.action == Action::Read || h.action == Action::ReadLocked) && h.user == Some(who)
}

} // verus!
