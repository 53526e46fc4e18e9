//! Transport decoding: base64 ciphertext, hex key and IV, and the text view
//! of decrypted bytes.
//!
//! The decoding work itself is done by outside code; each call stands behind
//! a trusted declaration whose contract states what that code returns.

use vstd::prelude::*;
use vstd::utf8::{decode_utf8, valid_utf8};

verus! {

/// A hexadecimal digit character, either case.
pub open spec fn is_hex_digit(c: char) -> bool {
    ||| (48 <= c as u32 && c as u32 <= 57)  // '0'..='9'
    ||| (97 <= c as u32 && c as u32 <= 102)  // 'a'..='f'
    ||| (65 <= c as u32 && c as u32 <= 70)  // 'A'..='F'
}

/// The value of a hexadecimal digit character.
pub open spec fn hex_digit_val(c: char) -> u8 {
    if 48 <= c as u32 && c as u32 <= 57 {
        (c as u32 - 48) as u8
    } else if 97 <= c as u32 && c as u32 <= 102 {
        (c as u32 - 97 + 10) as u8
    } else {
        (c as u32 - 65 + 10) as u8
    }
}

/// Strict hexadecimal decoding: an even number of hex digits, two digits to
/// a byte, high digit first; anything else decodes to nothing.
pub open spec fn hex_decode_spec(s: Seq<char>) -> Option<Seq<u8>> {
    if s.len() % 2 == 0 && (forall|i: int| 0 <= i < s.len() ==> is_hex_digit(s[i])) {
        Some(
            Seq::new(
                s.len() / 2,
                |i: int| (hex_digit_val(s[2 * i]) * 16 + hex_digit_val(s[2 * i + 1])) as u8,
            ),
        )
    } else {
        None
    }
}

/// Relies on `hex::decode`: it accepts exactly an even number of hex digits
/// of either case and returns one byte per digit pair, high digit first.
#[verifier::external_body]
pub(crate) fn hex_decode(s: &str) -> (r: Option<Vec<u8>>)
    ensures
        (r is Some) == (hex_decode_spec(s@) is Some),
        r matches Some(v) ==> Some(v@) == hex_decode_spec(s@),
{
    hex::decode(s).ok()
}

/// What `base64::decode` (standard alphabet) makes of a string: the decoded
/// bytes, or nothing when the string is not base64. The result depends on the
/// characters alone.
pub uninterp spec fn base64_decode_of(s: Seq<char>) -> Option<Seq<u8>>;

/// Relies on `base64::decode` with the standard alphabet.
#[verifier::external_body]
pub(crate) fn base64_decode(s: &str) -> (r: Option<Vec<u8>>)
    ensures
        (r is Some) == (base64_decode_of(s@) is Some),
        r matches Some(v) ==> Some(v@) == base64_decode_of(s@),
{
    base64::decode(s).ok()
}

/// Relies on `base64::encode`: its output is standard-alphabet base64 that
/// `base64::decode` takes back to the original bytes.
#[verifier::external_body]
pub(crate) fn base64_encode(b: &[u8]) -> (r: String)
    ensures
        base64_decode_of(r@) == Some(b@),
{
    base64::encode(b)
}

/// Relies on `String::from_utf8`: it succeeds exactly on valid UTF-8 and
/// returns the string those bytes encode.
#[verifier::external_body]
pub(crate) fn bytes_to_string(b: Vec<u8>) -> (r: Option<String>)
    ensures
        (r is Some) == valid_utf8(b@),
        r matches Some(s) ==> s@ == decode_utf8(b@),
{
    String::from_utf8(b).ok()
}

} // verus!
