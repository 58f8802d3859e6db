//! Content fingerprints: the render loop remembers the hash of every
//! scene file it has rendered, and skips a file whose hash and output are
//! both unchanged.
//!
//! The fingerprint is the lowercase hex encoding of the SHA-256 digest of
//! the file's bytes. Hashing is the `sha2` crate's work, reached through
//! a trusted wrapper; the hex encoding is stated exactly, digit by digit.

use vstd::prelude::*;

use crate::text::digit_char;
use crate::tile::str_eq;
use sha2::Digest;

verus! {

/// The 32 bytes of the SHA-256 digest of a byte sequence: a function of
/// the input bytes alone.
pub uninterp spec fn sha256_of(data: Seq<u8>) -> Seq<u8>;

/// Relies on `sha2::Sha256::digest`: the SHA-256 digest of the input,
/// which its documentation fixes at 32 bytes and which depends on the
/// input bytes alone.
#[verifier::external_body]
fn sha256_digest(data: &Vec<u8>) -> (r: Vec<u8>)
    ensures
        r@ == sha256_of(data@),
        r@.len() == 32,
{
    sha2::Sha256::digest(data).to_vec()
}

/// The lowercase hex digit of a nibble.
pub open spec fn hex_digit(d: int) -> char {
    if d < 10 {
        digit_char(d)
    } else if d == 10 {
        'a'
    } else if d == 11 {
        'b'
    } else if d == 12 {
        'c'
    } else if d == 13 {
        'd'
    } else if d == 14 {
        'e'
    } else {
        'f'
    }
}

/// The lowercase hex encoding of a byte sequence: two digits per byte,
/// high nibble first, bytes in order.
pub open spec fn hex_chars(data: Seq<u8>) -> Seq<char>
    decreases data.len(),
{
    if data.len() == 0 {
        Seq::empty()
    } else {
        hex_chars(data.drop_last()) + seq![
            hex_digit(data.last() as int / 16),
            hex_digit(data.last() as int % 16),
        ]
    }
}

/// Hex encoding writes two characters per byte.
pub proof fn lemma_hex_chars_len(data: Seq<u8>)
    ensures
        hex_chars(data).len() == 2 * data.len(),
    decreases data.len(),
{
    if data.len() > 0 {
        lemma_hex_chars_len(data.drop_last());
    }
}

/// Relies on `hex::encode`: the lowercase hex encoding of the bytes, two
/// digits per byte, high nibble first.
#[verifier::external_body]
fn hex_encode(data: &Vec<u8>) -> (r: String)
    ensures
        r@ == hex_chars(data@),
{
    hex::encode(data)
}

/// The content fingerprint of a file's bytes: the lowercase hex of their
/// SHA-256 digest, always 64 characters.
pub fn content_hash(data: &Vec<u8>) -> (r: String)
    ensures
        r@ == hex_chars(sha256_of(data@)),
        r@.len() == 64,
{
    let digest = sha256_digest(data);
    let out = hex_encode(&digest);
    proof {
        lemma_hex_chars_len(digest@);
    }
    out
}

/// Whether a scene file must be rendered again: it must unless its stored
/// fingerprint equals the current one and the output file still exists.
pub fn needs_render(stored: Option<&String>, current: &String, output_exists: bool) -> (r: bool)
    ensures
        r == !(match stored {
            Some(s) => s@ == current@,
            None => false,
        } && output_exists),
{
    match stored {
        Some(s) => !(str_eq(s.as_str(), current.as_str()) && output_exists),
        None => true,
    }
}

} // verus!
