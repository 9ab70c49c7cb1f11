//! Access control and lifecycle of encrypted notes: ownership, time-windowed
//! sharing rules, a one-way lock on first share or first read, an audit
//! history per note, and the owner and share indices kept beside the notes.
pub mod assoc;
pub mod error;
pub mod greeting;
pub mod history;
pub mod identity;
pub mod index;
pub mod keys;
pub mod note;
pub mod rule;
pub mod store;

pub use error::NoteError;
pub use greeting::greet;
pub use history::{Action, HistoryEntry};
pub use identity::caller_name;
pub use index::{NoteIds, NoteIndex};
pub use keys::{derivation_id, encode_key};
pub use note::{Access, EncryptedNote};
pub use rule::{NoteId, PrincipalEntry, PrincipalRule};
pub use store::{Limits, NoteStore};
