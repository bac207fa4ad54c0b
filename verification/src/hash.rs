//! The digest that names edges and routed messages.

use crate::byte_array::array_eq;
use vstd::prelude::*;

verus! {

/// The SHA-256 digest of a byte string: what [`sha2::Sha256`] computes.
pub uninterp spec fn sha256(data: Seq<u8>) -> Seq<u8>;

/// A 32-byte digest.
#[derive(Clone, Copy, Debug, Hash)]
pub struct CryptoHash(pub [u8; 32]);

impl View for CryptoHash {
    type V = Seq<u8>;

    open spec fn view(&self) -> Seq<u8> {
        self.0@
    }
}

impl PartialEq for CryptoHash {
    fn eq(&self, other: &Self) -> (same: bool) {
        array_eq(&self.0, &other.0)
    }
}

impl Eq for CryptoHash {

}

impl vstd::std_specs::cmp::PartialEqSpecImpl for CryptoHash {
    open spec fn obeys_eq_spec() -> bool {
        true
    }

    open spec fn eq_spec(&self, other: &Self) -> bool {
        *self == *other
    }
}

impl CryptoHash {
    /// The digest as bytes.
    pub fn as_bytes(&self) -> (bytes: &[u8; 32])
        ensures
            *bytes == self.0,
    {
        &self.0
    }
}

/// Trusted: `sha2::Sha256::digest` on `data`, whose 32 output bytes are the
/// SHA-256 digest of the input. The digest itself is not modelled; it is
/// named by [`sha256`].
#[verifier::external_body]
fn sha256_digest(data: &[u8]) -> (digest: [u8; 32])
    ensures
        digest@ == sha256(data@),
{
    <sha2::Sha256 as sha2::Digest>::digest(data).into()
}

/// Hashes a byte string.
pub fn hash(data: &[u8]) -> (digest: CryptoHash)
    ensures
        digest@ == sha256(data@),
{
    CryptoHash(sha256_digest(data))
}

} // verus!
