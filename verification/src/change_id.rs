//! The textual form of a change identifier.

use vstd::prelude::*;
use crate::text::{clip_text, clipped};

verus! {

/// How many characters of a change identifier a status record keeps.
pub const STORED_CHANGE_ID_LEN: usize = 8;

/// The digit that stands for `nibble` in the reversed alphabet: `z` for 0
/// down to `k` for 15.
pub open spec fn reverse_hex_digit(nibble: int) -> char {
    ('z' as int - nibble) as char
}

/// A byte string written with two reversed-alphabet digits per byte, the
/// high half first.
pub open spec fn reverse_hex(bytes: Seq<u8>) -> Seq<char> {
    Seq::new(
        2 * bytes.len(),
        |i: int|
            reverse_hex_digit(
                if i % 2 == 0 {
                    bytes[i / 2] as int / 16
                } else {
                    bytes[i / 2] as int % 16
                },
            ),
    )
}

/// Calls `jj_lib::hex_util::encode_reverse_hex`. Trusted: the result holds,
/// for each byte in order, the digit of its high half and then of its low
/// half, taken from the alphabet `zyxwvutsrqponmlk`.
#[verifier::external_body]
fn encode_reverse_hex(bytes: &Vec<u8>) -> (text: String)
    ensures
        text@ == reverse_hex(bytes@),
{
    jj_lib::hex_util::encode_reverse_hex(bytes.as_slice())
}

/// The stored form of a change identifier given as bytes: the leading
/// characters of its textual form, up to `STORED_CHANGE_ID_LEN`.
pub fn stored_change_id(change_id: &Vec<u8>) -> (text: String)
    ensures
        text@ == clipped(reverse_hex(change_id@), STORED_CHANGE_ID_LEN as int),
{
    let full = encode_reverse_hex(change_id);
    clip_text(full.as_str(), STORED_CHANGE_ID_LEN)
}

} // verus!
