//! The audit history of a note.
use vstd::prelude::*;
use crate::rule::{copy_subject, subject_view, SubjectView};

verus! {

/// What a history entry records.
#[derive(Clone, Copy, Debug, PartialEq, Eq, Structural)]
pub enum Action {
    Created,
    Updated,
    Shared,
    Unshared,
    Locked,
    Read,
    ReadLocked,
}

/// One entry of a note's history: the action, who it concerns, the rule
/// involved (subject and start), and when it happened.
#[derive(Clone, Debug, PartialEq, Eq)]
pub struct HistoryEntry {
    pub action: Action,
    pub user: Option<String>,
    pub rule: Option<(Option<String>, Option<u64>)>,
    pub created_at: u64,
}

/// The model of a history entry.
pub struct HistoryView {
    pub action: Action,
    pub user: SubjectView,
    pub rule: Option<(SubjectView, Option<u64>)>,
    pub created_at: u64,
}

/// The model of the rule that an entry mentions.
pub open spec fn related_rule_view(r: Option<(Option<String>, Option<u64>)>) -> Option<(SubjectView, Option<u64>)> {
    match r {
        Some((s, w)) => Some((subject_view(s), w)),
        None => None,
    }
}

impl View for HistoryEntry {
    type V = HistoryView;

    open spec fn view(&self) -> HistoryView {
        HistoryView {
            action: self.action,
            user: subject_view(self.user),
            rule: related_rule_view(self.rule),
            created_at: self.created_at,
        }
    }
}

impl HistoryEntry {
    /// What the entry records.
    pub fn action(&self) -> (r: Action)
        ensures
            r == self.action,
    {
        self.action
    }

    /// The principal the entry concerns (`None`: everyone, or nobody).
    pub fn user(&self) -> (r: Option<String>)
        ensures
            subject_view(r) == self@.user,
    {
        copy_subject(&self.user)
    }

    /// The rule involved, as its subject and start.
    pub fn rule(&self) -> (r: Option<(Option<String>, Option<u64>)>)
        ensures
            related_rule_view(r) == self@.rule,
    {
        match &self.rule {
            Some((s, w)) => Some((copy_subject(s), *w)),
            None => None,
        }
    }

    /// When the entry was written.
    pub fn created_at(&self) -> (r: u64)
        ensures
            r == self.created_at,
    {
        self.created_at
    }

    /// A copy with the same model.
    pub fn copy(&self) -> (r: HistoryEntry)
        ensures
            r@ == self@,
    {
        HistoryEntry {
            action: self.action,
            user: copy_subject(&self.user),
            rule: self.rule(),
            created_at: self.created_at,
        }
    }
}

} // verus!
