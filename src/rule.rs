//! Sharing rules and the subjects they name.
use vstd::prelude::*;

verus! {

/// Identifier of a note.
pub type NoteId = u128;

/// A subject in the mathematical model: `Some(name)` for one principal,
/// `None` for everyone.
pub type SubjectView = Option<Seq<char>>;

/// The model of a subject held as `Option<String>`.
pub open spec fn subject_view(s: Option<String>) -> SubjectView {
    match s {
        Some(name) => Some(name@),
        None => None,
    }
}

/// Compares two subjects by their text.
pub fn same_subject(a: &Option<String>, b: &Option<String>) -> (r: bool)
    ensures
        r == (subject_view(*a) == subject_view(*b)),
{
    match (a, b) {
        (Some(x), Some(y)) => *x == *y,
        (None, None) => true,
        _ => false,
    }
}

/// Copies a subject.
pub fn copy_subject(s: &Option<String>) -> (r: Option<String>)
    ensures
        subject_view(r) == subject_view(*s),
{
    match s {
        Some(x) => Some(x.clone()),
        None => None,
    }
}

/// When a rule starts to grant access, and whether its subject has read the
/// note through it.
#[derive(Clone, Copy, Debug, PartialEq, Eq, Structural)]
pub struct PrincipalRule {
    pub when: Option<u64>,
    pub was_read: bool,
}

/// A rule grants access at `now` when it has no start, or its start is not
/// later than `now`.
pub open spec fn rule_valid(r: PrincipalRule, now: u64) -> bool {
    match r.when {
        Some(t) => t <= now,
        None => true,
    }
}

impl PrincipalRule {
    /// The moment from which the rule grants access, if any.
    pub fn when(&self) -> (r: Option<u64>)
        ensures
            r == self.when,
    {
        self.when
    }

    /// Whether the subject read the note through this rule.
    pub fn was_read(&self) -> (r: bool)
        ensures
            r == self.was_read,
    {
        self.was_read
    }

    /// Whether the rule grants access at `now`.
    pub fn is_valid_at(&self, now: u64) -> (r: bool)
        ensures
            r == rule_valid(*self, now),
    {
        match self.when {
            Some(t) => t <= now,
            None => true,
        }
    }
}

/// A rule together with the subject it names (`None`: everyone).
#[derive(Clone, Debug, PartialEq, Eq)]
pub struct PrincipalEntry {
    pub name: Option<String>,
    pub rule: PrincipalRule,
}

impl PrincipalEntry {
    /// The subject of the entry, in the model.
    pub open spec fn subject(self) -> SubjectView {
        subject_view(self.name)
    }

    /// The subject of the entry.
    pub fn name(&self) -> (r: Option<String>)
        ensures
            subject_view(r) == self.subject(),
    {
        copy_subject(&self.name)
    }

    /// The rule of the entry.
    pub fn rule(&self) -> (r: PrincipalRule)
        ensures
            r == self.rule,
    {
        self.rule
    }

    /// A copy with the same subject and rule.
    pub fn copy(&self) -> (r: PrincipalEntry)
        ensures
            r.subject() == self.subject(),
            r.rule == self.rule,
    {
        PrincipalEntry { name: copy_subject(&self.name), rule: self.rule }
    }
}

} // verus!
