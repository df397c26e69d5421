//! Content hashes.

use crate::numeral::{hex, law_hex_is_in_lower_case, lower_hex, to_hex};
use crate::text::string_of;
use vstd::prelude::*;

verus! {

/// The SHA-256 digest of a sequence of bytes.
pub uninterp spec fn sha256(bytes: Seq<u8>) -> Seq<u8>;

/// `sha2::Sha256::digest`: the digest of the bytes, which is a function of
/// them and has 32 bytes.
#[verifier::external_body]
fn digest(bytes: &[u8]) -> (r: Vec<u8>)
    ensures
        r@ == sha256(bytes@),
        r@.len() == 32,
{
    <sha2::Sha256 as sha2::Digest>::digest(bytes).to_vec()
}

/// The SHA-256 digest in lower-case hexadecimal digits.
pub fn sha256_hex(bytes: &[u8]) -> (r: String)
    ensures
        r@ == hex(sha256(bytes@)),
        r@.len() == 64,
        lower_hex(r@),
{
    let d: Vec<u8> = digest(bytes);
    let cs: Vec<char> = to_hex(d.as_slice());
    proof {
        law_hex_is_in_lower_case(d@);
    }
    string_of(cs.as_slice())
}

} // verus!
