//! The caller's identity, from the raw bytes of its principal.
use vstd::prelude::*;
use crate::error::NoteError;

verus! {

/// The longest principal, in bytes.
pub const MAX_PRINCIPAL_BYTES: usize = 29;

/// The single byte of the anonymous principal.
pub const ANONYMOUS_TAG: u8 = 4;

/// The textual form of the principal with raw bytes `bytes`.
pub uninterp spec fn principal_text_of(bytes: Seq<u8>) -> Seq<char>;

/// Whether `bytes` are those of the anonymous principal.
pub open spec fn is_anonymous(bytes: Seq<u8>) -> bool {
    bytes =~= seq![ANONYMOUS_TAG]
}

/// Relies on candid::Principal::try_from_slice, which refuses exactly the
/// slices longer than 29 bytes, and on Principal::to_text, whose result
/// depends on the bytes alone.
#[verifier::external_body]
fn principal_text(bytes: &Vec<u8>) -> (r: Option<String>)
    ensures
        match r {
            Some(t) => bytes@.len() <= MAX_PRINCIPAL_BYTES && t@ == principal_text_of(bytes@),
            None => bytes@.len() > MAX_PRINCIPAL_BYTES,
        },
{
    match candid::Principal::try_from_slice(bytes.as_slice()) {
        Ok(p) => Some(p.to_text()),
        Err(_) => None,
    }
}

/// The name under which the caller with principal bytes `caller` acts:
/// refused for the anonymous principal and for bytes that form no principal.
pub fn caller_name(caller: &Vec<u8>) -> (r: Result<String, NoteError>)
    ensures
        is_anonymous(caller@) || caller@.len() > MAX_PRINCIPAL_BYTES ==> r == Err::<String, NoteError>(
            NoteError::Unauthenticated,
        ),
        !is_anonymous(caller@) && caller@.len() <= MAX_PRINCIPAL_BYTES ==> (r matches Ok(t) && t@
            == principal_text_of(caller@)),
{
    if caller.len() == 1 && caller[0] == ANONYMOUS_TAG {
        return Err(NoteError::Unauthenticated);
    }
    proof {
        assert(!is_anonymous(caller@)) by {
            if is_anonymous(caller@) {
                assert(caller@[0] == ANONYMOUS_TAG);
            }
        }
    }
    match principal_text(caller) {
        Some(t) => Ok(t),
        None => Err(NoteError::Unauthenticated),
    }
}

} // verus!
