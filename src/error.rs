//! Why an operation on the notes was refused.
use vstd::prelude::*;

verus! {

/// Why an operation was refused. A refused operation changes nothing.
#[derive(Clone, Copy, Debug, PartialEq, Eq, Structural)]
pub enum NoteError {
    /// The caller is anonymous or has no identity.
    Unauthenticated,
    /// The caller may not do this to the note.
    Unauthorized,
    /// No note has the identifier.
    NotFound,
    /// A bound on counts or sizes would be passed.
    QuotaExceeded,
    /// The note is locked, and the change is one a lock forbids.
    AlreadyLocked,
}

} // verus!
