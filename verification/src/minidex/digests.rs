//! The checksum and the signature of a DEX file.
use sha1::{Digest, Sha1};
use vstd::prelude::*;

verus! {

/// The two running sums of an Adler-32 checksum, modulo 65521.
pub open spec fn adler_sums(data: Seq<u8>) -> (int, int)
    decreases data.len(),
{
    if data.len() == 0 {
        (1, 0)
    } else {
        let (a, b) = adler_sums(data.drop_last());
        let next = (a + data.last()) % 65521;
        (next, (b + next) % 65521)
    }
}

/// The Adler-32 checksum of a byte string.
pub open spec fn adler32(data: Seq<u8>) -> u32 {
    (adler_sums(data).1 * 0x1_0000 + adler_sums(data).0) as u32
}

/// Calls `adler2::adler32_slice`, which computes the Adler-32 checksum: two
/// sums modulo 65521, the first starting at one and adding the bytes, the
/// second starting at zero and adding the first after each byte; the second is
/// the high half of the result.
#[verifier::external_body]
pub(crate) fn adler32_of(data: &[u8]) -> (r: u32)
    ensures
        r == adler32(data@),
{
    adler2::adler32_slice(data)
}

/// What `sha1::Sha1::digest` returns for a byte string.
pub uninterp spec fn sha1_digest(data: Seq<u8>) -> [u8; 20];

/// Calls `sha1::Sha1::digest`. Its result is the SHA-1 digest of the bytes,
/// which depends on nothing else. It counts the message's bits in 64 bits, so
/// the message has fewer than 2^61 bytes.
#[verifier::external_body]
pub(crate) fn sha1_of(data: &[u8]) -> (r: Vec<u8>)
    requires
        data@.len() < 0x2000_0000_0000_0000,
    ensures
        r@ == sha1_digest(data@)@,
{
    Sha1::digest(data).to_vec()
}

} // verus!
