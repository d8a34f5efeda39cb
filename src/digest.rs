use vstd::prelude::*;

verus! {

/// The SHA-256 digest of a byte sequence, as 64 lowercase hexadecimal digits.
pub uninterp spec fn sha256_hex(b: Seq<u8>) -> Seq<char>;

/// Relies on sha2::Sha256::digest: the 32-byte SHA-256 of the input, which
/// the lower-hex formatting of its output array writes as 64 digits.
#[verifier::external_body]
pub(crate) fn digest_bytes(b: &[u8]) -> (r: String)
    ensures
        r@ == sha256_hex(b@),
        r@.len() == 64,
{
    format!("{:x}", <sha2::Sha256 as sha2::Digest>::digest(b))
}

} // verus!
