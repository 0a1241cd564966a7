//! SHA-256 digests and the 4-byte packet checksum derived from them.

use vstd::prelude::*;

verus! {

/// The SHA-256 digest of `data`, as computed by the `sha2` crate.
pub uninterp spec fn sha256(data: Seq<u8>) -> Seq<u8>;

/// The packet checksum of `data`: the first four bytes of its SHA-256 digest.
pub open spec fn checksum_of(data: Seq<u8>) -> Seq<u8> {
    sha256(data).subrange(0, 4)
}

/// Namespace for the SHA-256 based helpers.
#[derive(Debug)]
pub struct Sha256;

/// Error returned where a payload does not match the checksum it came with.
#[derive(Debug, PartialEq, Eq, Structural)]
pub struct ChecksumMismatch;

impl ChecksumMismatch {
    /// The text shown for this error.
    pub fn message(&self) -> (s: &'static str)
        ensures
            s@ == "Checksum Mismatch"@,
    {
        "Checksum Mismatch"
    }
}

impl Sha256 {
    /// The SHA-256 digest of `data`, from `sha2::Sha256::digest`.
    ///
    /// The result is named `sha256(data)`; SHA-256 digests are 32 bytes long.
    #[verifier::external_body]
    pub fn digest(data: &[u8]) -> (d: Vec<u8>)
        ensures
            d@ == sha256(data@),
            d@.len() == 32,
    {
        <sha2::Sha256 as sha2::Digest>::digest(data).to_vec()
    }

    /// The checksum of `data`: the first four bytes of its SHA-256 digest.
    pub fn checksum(data: &[u8]) -> (c: [u8; 4])
        ensures
            c@ == checksum_of(data@),
    {
        let d = Self::digest(data);
        let c = [d[0], d[1], d[2], d[3]];
        assert(c@ =~= checksum_of(data@));
        c
    }

    /// Whether `checksum` is the checksum of `data`.
    pub fn verify_checksum(data: &[u8], checksum: &[u8]) -> (ok: bool)
        ensures
            ok == (checksum@ == checksum_of(data@)),
    {
        let c = Self::checksum(data);
        if checksum.len() != 4 {
            assert(checksum@.len() != c@.len());
            return false;
        }
        let ok = c[0] == checksum[0] && c[1] == checksum[1] && c[2] == checksum[2] && c[3]
            == checksum[3];
        if ok {
            assert(c@ =~= checksum@);
        } else {
            assert(c@ != checksum@) by {
                if c@ == checksum@ {
                    assert(c@[0] == checksum@[0]);
                    assert(c@[1] == checksum@[1]);
                    assert(c@[2] == checksum@[2]);
                    assert(c@[3] == checksum@[3]);
                }
            }
        }
        ok
    }
}

} // verus!
