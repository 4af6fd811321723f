//! Checksums and digests.
use sha2::Digest;
use vstd::prelude::*;

verus! {

/// The CRC-32C (Castagnoli) checksum of some bytes.
pub uninterp spec fn crc32c_of(bytes: Seq<u8>) -> u32;

/// `crc32c::crc32c`: the checksum of `bytes`, a function of them alone.
#[verifier::external_body]
pub(crate) fn crc(bytes: &[u8]) -> (r: u32)
    ensures
        r == crc32c_of(bytes@),
{
    crc32c::crc32c(bytes)
}

/// The SHA-256 digest of some bytes.
pub uninterp spec fn sha256_of(bytes: Seq<u8>) -> Seq<u8>;

/// `sha2::Sha256::digest`: the digest of `bytes`, thirty-two bytes that depend on them alone.
#[verifier::external_body]
pub(crate) fn sha256(bytes: &[u8]) -> (r: Vec<u8>)
    ensures
        r@ == sha256_of(bytes@),
        r@.len() == 32,
{
    sha2::Sha256::digest(bytes).to_vec()
}

/// The SHA-224 digest of some bytes.
pub uninterp spec fn sha224_of(bytes: Seq<u8>) -> Seq<u8>;

/// `sha2::Sha224::digest`: the digest of `bytes`, twenty-eight bytes that depend on them alone.
#[verifier::external_body]
pub(crate) fn sha224(bytes: &[u8]) -> (r: Vec<u8>)
    ensures
        r@ == sha224_of(bytes@),
        r@.len() == 28,
{
    sha2::Sha224::digest(bytes).to_vec()
}

/// The SHA-384 digest of some bytes.
pub uninterp spec fn sha384_of(bytes: Seq<u8>) -> Seq<u8>;

/// `sha2::Sha384::digest`: the digest of `bytes`, forty-eight bytes that depend on them alone.
#[verifier::external_body]
pub(crate) fn sha384(bytes: &[u8]) -> (r: Vec<u8>)
    ensures
        r@ == sha384_of(bytes@),
        r@.len() == 48,
{
    sha2::Sha384::digest(bytes).to_vec()
}

/// The SHA-512 digest of some bytes.
pub uninterp spec fn sha512_of(bytes: Seq<u8>) -> Seq<u8>;

/// `sha2::Sha512::digest`: the digest of `bytes`, sixty-four bytes that depend on them alone.
#[verifier::external_body]
pub(crate) fn sha512(bytes: &[u8]) -> (r: Vec<u8>)
    ensures
        r@ == sha512_of(bytes@),
        r@.len() == 64,
{
    sha2::Sha512::digest(bytes).to_vec()
}

} // verus!
