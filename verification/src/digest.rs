//! The hashing primitive: a hex SHA-256 digest prefixed with `0x`.

use vstd::prelude::*;
use vstd::string::StringExecFns;

verus! {

/// The lowercase hexadecimal SHA-256 digest of `data`, as
/// `crypto_hash::hex_digest` computes it for `Algorithm::SHA256`.
pub uninterp spec fn sha256_hex(data: Seq<u8>) -> Seq<char>;

/// The hash of a byte string: `0x` followed by its hex SHA-256 digest.
pub open spec fn prefixed_digest(data: Seq<u8>) -> Seq<char> {
    seq!['0', 'x'] + sha256_hex(data)
}

/// Calls `crypto_hash::hex_digest` with `Algorithm::SHA256`. The digest is a
/// function of the bytes alone; the contract gives it its name and claims
/// nothing else of it.
#[verifier::external_body]
fn hex_digest(data: &[u8]) -> (r: String)
    ensures
        r@ == sha256_hex(data@),
{
    crypto_hash::hex_digest(crypto_hash::Algorithm::SHA256, data)
}

/// Hashes a byte string.
pub fn hash_bytes(data: &[u8]) -> (r: String)
    ensures
        r@ == prefixed_digest(data@),
{
    let hex = hex_digest(data);
    let mut out = String::from_str("0x");
    proof {
        reveal_strlit("0x");
    }
    out.append(hex.as_str());
    assert(out@ =~= prefixed_digest(data@));
    out
}

} // verus!
