//! What is handed to the key derivation service for a note, and how its reply
//! is shown.
use vstd::prelude::*;
use vstd::utf8::encode_utf8;
use crate::rule::NoteId;

verus! {

/// `n` as `len` bytes, most significant first, keeping the low `len` bytes.
pub open spec fn be_bytes(n: nat, len: nat) -> Seq<u8>
    decreases len,
{
    if len == 0 {
        Seq::empty()
    } else {
        be_bytes(n / 256, (len - 1) as nat).push((n % 256) as u8)
    }
}

fn be_bytes_of(n: u128, len: usize) -> (r: Vec<u8>)
    ensures
        r@ == be_bytes(n as nat, len as nat),
    decreases len,
{
    if len == 0 {
        Vec::new()
    } else {
        let mut v = be_bytes_of(n / 256, len - 1);
        v.push((n % 256) as u8);
        v
    }
}

/// The derivation input of a note's key: the identifier on sixteen bytes,
/// most significant first, then the owner's name in UTF-8. The fixed width
/// of the first part keeps distinct notes apart.
pub open spec fn derivation_id_of(id: NoteId, owner: Seq<char>) -> Seq<u8> {
    be_bytes(id as nat, 16) + encode_utf8(owner)
}

/// The derivation input of the key of note `id` owned by `owner`.
pub fn derivation_id(id: NoteId, owner: &String) -> (r: Vec<u8>)
    ensures
        r@ == derivation_id_of(id, owner@),
{
    let mut v = be_bytes_of(id, 16);
    let tail = owner.as_str().as_bytes();
    let mut i: usize = 0;
    while i < tail.len()
        invariant
            i <= tail@.len(),
            tail@ == encode_utf8(owner@),
            v@ == be_bytes(id as nat, 16) + tail@.subrange(0, i as int),
        decreases tail@.len() - i,
    {
        v.push(tail[i]);
        proof {
            assert(v@ =~= be_bytes(id as nat, 16) + tail@.subrange(0, i + 1));
        }
        i += 1;
    }
    proof {
        assert(tail@.subrange(0, tail@.len() as int) =~= tail@);
    }
    v
}

/// The lowercase hexadecimal digit of `d` (below sixteen).
pub open spec fn hex_digit(d: u8) -> char {
    if d < 10 {
        ((48 + d) as u8) as char
    } else {
        ((87 + d) as u8) as char
    }
}

/// Each byte as two lowercase hexadecimal digits, the high half first.
pub open spec fn hex_of(b: Seq<u8>) -> Seq<char>
    decreases b.len(),
{
    if b.len() == 0 {
        Seq::empty()
    } else {
        hex_of(b.drop_last()) + seq![hex_digit(b.last() / 16), hex_digit(b.last() % 16)]
    }
}

/// Relies on hex::encode: each byte becomes two lowercase hexadecimal
/// digits, the high half first.
#[verifier::external_body]
fn hex_encode(b: &Vec<u8>) -> (r: String)
    ensures
        r@ == hex_of(b@),
{
    hex::encode(b)
}

/// The text form of a key that the derivation service returned.
pub fn encode_key(key: &Vec<u8>) -> (r: String)
    ensures
        r@ == hex_of(key@),
{
    hex_encode(key)
}

} // verus!
