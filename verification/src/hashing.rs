//! Content fingerprints: the hex-encoded SHA-512 digest of the leading bytes
//! of a file. The digest itself is computed by the `sha2` crate; its result
//! is named, not restated, and everything downstream works from that name.

use vstd::prelude::*;
use sha2::Digest;
use crate::bytes::{no_newline, NEWLINE};
use crate::KEY_WIDTH;

verus! {

/// The hex-encoded SHA-512 digest of a byte string. A function of the bytes
/// alone: the same bytes give the same fingerprint on every run.
pub uninterp spec fn sha512_hex_of(data: Seq<u8>) -> Seq<u8>;

/// Lowercase hexadecimal digit, as a byte.
pub open spec fn is_lower_hex_digit(b: u8) -> bool {
    (48 <= b <= 57) || (97 <= b <= 102)
}

/// Relies on sha2::Sha512 (through sha2::Digest::digest) and on lower-hex
/// formatting of its 64-byte output: the result is a function of the input
/// bytes alone, two lowercase hex digits per digest byte, 128 in all.
#[verifier::external_body]
fn sha512_hex(data: &Vec<u8>) -> (r: Vec<u8>)
    ensures
        r@ == sha512_hex_of(data@),
        r@.len() == KEY_WIDTH,
        forall|i: int| 0 <= i < r@.len() ==> is_lower_hex_digit(r@[i]),
{
    let digest = sha2::Sha512::digest(data.as_slice());
    format!("{:x}", digest).into_bytes()
}

/// Fingerprint of a file's leading bytes: a fixed-width key for the state
/// table, free of line separators.
pub fn fingerprint(data: &Vec<u8>) -> (r: Vec<u8>)
    ensures
        r@ == sha512_hex_of(data@),
        r@.len() == KEY_WIDTH,
        no_newline(r@),
{
    let r = sha512_hex(data);
    proof {
        assert forall|i: int| 0 <= i < r@.len() implies r@[i] != NEWLINE by {
            assert(is_lower_hex_digit(r@[i]));
        }
    }
    r
}

} // verus!
