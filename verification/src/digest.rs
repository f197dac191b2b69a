//! SHA-1 digests through the `sha1` crate, and their hexadecimal text.

use vstd::prelude::*;
use sha1::Digest;
use crate::text::{hex_chars, spec_hex, string_of};

verus! {

/// What `sha1::Sha1::digest(data)` gives: the SHA-1 digest of `data`.
pub uninterp spec fn sha1_digest(data: Seq<u8>) -> Seq<u8>;

/// The SHA-1 digest of `data` (`<Sha1 as Digest>::digest`). Claimed: the result is
/// `sha1_digest(data)`, and it is 20 bytes long (the crate's `OutputSize` is `U20`).
#[verifier::external_body]
pub(crate) fn sha1(data: &[u8]) -> (r: Vec<u8>)
    ensures
        r@ == sha1_digest(data@),
        r@.len() == 20,
{
    sha1::Sha1::digest(data).to_vec()
}

/// The SHA-1 digest of `data` as 40 lower-case hexadecimal digits, as both
/// `format!("{:x}", digest)` and a `write!(s, "{:02x}", byte)` loop over it write it.
pub fn sha1_hex(data: &[u8]) -> (r: String)
    ensures
        r@ == spec_hex(sha1_digest(data@)),
        r@.len() == 40,
{
    let d = sha1(data);
    proof {
        crate::text::lemma_hex_len(d@);
    }
    let h = hex_chars(d.as_slice());
    string_of(h.as_slice())
}

} // verus!
