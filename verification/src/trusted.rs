//! The kernel's assumptions about outside code: hashing, hex encoding,
//! identifier generation, clock reading, and one `String` primitive that vstd
//! does not cover. Every other function of this crate is verified against the
//! contracts stated here.

use vstd::prelude::*;
use sha2::Digest;

verus! {

/// The SHA-256 digest of the UTF-8 bytes of a character sequence. The digest
/// is a function of the characters alone.
pub uninterp spec fn sha256_of(s: Seq<char>) -> Seq<u8>;

/// Relies on sha2::Sha256::digest: the SHA-256 digest of the string's UTF-8
/// bytes, always 32 bytes long.
#[verifier::external_body]
fn sha256_bytes(s: &str) -> (r: Vec<u8>)
    ensures
        r@ == sha256_of(s@),
        r@.len() == 32,
{
    sha2::Sha256::digest(s.as_bytes()).to_vec()
}

/// The lowercase hexadecimal rendering of a byte sequence: two digits per
/// byte, high digit first.
pub open spec fn hex_of(bytes: Seq<u8>) -> Seq<char>
    decreases bytes.len(),
{
    if bytes.len() == 0 {
        Seq::empty()
    } else {
        hex_of(bytes.drop_last()) + seq![
            crate::json::hex_digit(bytes.last() / 16),
            crate::json::hex_digit(bytes.last() % 16),
        ]
    }
}

/// Relies on hex::encode: the lowercase hexadecimal rendering of the bytes.
#[verifier::external_body]
fn hex_encode(bytes: &Vec<u8>) -> (r: String)
    ensures
        r@ == hex_of(bytes@),
{
    hex::encode(bytes)
}

/// The content address of a character sequence: its SHA-256 digest in
/// lowercase hexadecimal.
pub open spec fn sha256_hex_of(s: Seq<char>) -> Seq<char> {
    hex_of(sha256_of(s))
}

/// The content address of the canonical bytes of `s`, as 64 lowercase
/// hexadecimal digits.
pub fn sha256_hex(s: &str) -> (r: String)
    ensures
        r@ == sha256_hex_of(s@),
        r@.len() == 64,
{
    let digest = sha256_bytes(s);
    let r = hex_encode(&digest);
    proof {
        lemma_hex_of_len(sha256_of(s@));
    }
    r
}

/// The hexadecimal rendering of a byte sequence is twice as long as the
/// sequence.
pub proof fn lemma_hex_of_len(bytes: Seq<u8>)
    ensures
        hex_of(bytes).len() == 2 * bytes.len(),
    decreases bytes.len(),
{
    if bytes.len() > 0 {
        lemma_hex_of_len(bytes.drop_last());
    }
}

/// Relies on uuid::Uuid::new_v4 and its hyphenated rendering: a fresh random
/// version-4 UUID; its string form is 36 characters. Nothing more is assumed
/// of it — in particular not uniqueness.
#[verifier::external_body]
pub fn fresh_uuid() -> (r: String)
    ensures
        r@.len() == 36,
{
    uuid::Uuid::new_v4().to_string()
}

/// Relies on chrono::Utc::now: the current UTC time rendered in RFC 3339 form
/// with millisecond precision. Nothing is assumed of the value beyond being
/// non-empty.
#[verifier::external_body]
pub fn now_rfc3339() -> (r: String)
    ensures
        r@.len() > 0,
{
    chrono::Utc::now().to_rfc3339_opts(chrono::SecondsFormat::Millis, true)
}

/// Relies on String::push, which vstd does not specify: appends one character.
#[verifier::external_body]
pub fn push_char(s: &mut String, c: char)
    ensures
        final(s)@ == old(s)@.push(c),
{
    s.push(c)
}

} // verus!
