//! Message digests used by the standard security handler: MD5 for
//! revisions 2 to 4, SHA-256/384/512 for revisions 5 and 6. The digests
//! themselves come from the RustCrypto `md-5` and `sha2` crates; what they
//! return is named, not restated.

use sha2::Digest;
use vstd::prelude::*;

verus! {

/// The MD5 digest of `data` (RFC 1321), as computed by `md5::Md5`.
pub uninterp spec fn md5_of(data: Seq<u8>) -> Seq<u8>;

/// The SHA-256 digest of `data` (FIPS 180-4), as computed by `sha2::Sha256`.
pub uninterp spec fn sha256_of(data: Seq<u8>) -> Seq<u8>;

/// The SHA-384 digest of `data` (FIPS 180-4), as computed by `sha2::Sha384`.
pub uninterp spec fn sha384_of(data: Seq<u8>) -> Seq<u8>;

/// The SHA-512 digest of `data` (FIPS 180-4), as computed by `sha2::Sha512`.
pub uninterp spec fn sha512_of(data: Seq<u8>) -> Seq<u8>;

/// Calls `<md5::Md5 as Digest>::digest`. Trusted: the result is the digest
/// named [`md5_of`] of exactly the bytes given, and it is 16 bytes long
/// (the output size of `Md5`).
#[verifier::external_body]
pub(crate) fn md5(data: &[u8]) -> (r: Vec<u8>)
    ensures
        r@ == md5_of(data@),
        r@.len() == 16,
{
    md5::Md5::digest(data).to_vec()
}

/// Calls `<sha2::Sha256 as Digest>::digest`. Trusted: the result is
/// [`sha256_of`] the bytes given, 32 bytes long.
#[verifier::external_body]
pub(crate) fn sha256(data: &[u8]) -> (r: Vec<u8>)
    ensures
        r@ == sha256_of(data@),
        r@.len() == 32,
{
    sha2::Sha256::digest(data).to_vec()
}

/// Calls `<sha2::Sha384 as Digest>::digest`. Trusted: the result is
/// [`sha384_of`] the bytes given, 48 bytes long.
#[verifier::external_body]
pub(crate) fn sha384(data: &[u8]) -> (r: Vec<u8>)
    ensures
        r@ == sha384_of(data@),
        r@.len() == 48,
{
    sha2::Sha384::digest(data).to_vec()
}

/// Calls `<sha2::Sha512 as Digest>::digest`. Trusted: the result is
/// [`sha512_of`] the bytes given, 64 bytes long.
#[verifier::external_body]
pub(crate) fn sha512(data: &[u8]) -> (r: Vec<u8>)
    ensures
        r@ == sha512_of(data@),
        r@.len() == 64,
{
    sha2::Sha512::digest(data).to_vec()
}

} // verus!
