//! Keys and signatures over Ed25519.

use crate::byte_array::{array_eq, array_lt, lex_lt, lex_lt_at};
use vstd::prelude::*;
use vstd::string::StringSliceAdditionalSpecFns;

verus! {

/// The public key that belongs to a 32-byte Ed25519 secret key.
pub uninterp spec fn ed25519_public(secret: Seq<u8>) -> Seq<u8>;

/// The Ed25519 signature of `message` under a 32-byte secret key. Signing
/// draws no randomness, so the signature is a function of key and message.
pub uninterp spec fn ed25519_signature(secret: Seq<u8>, message: Seq<u8>) -> Seq<u8>;

/// Whether Ed25519 verification accepts `signature` for `message` under the
/// public key `public`.
pub uninterp spec fn ed25519_accepts(public: Seq<u8>, message: Seq<u8>, signature: Seq<u8>) -> bool;

/// Trusted: `ed25519_dalek::SigningKey::from_bytes` followed by
/// `verifying_key`, which derives the public key from the secret one.
#[verifier::external_body]
fn ed25519_derive_public(secret: &[u8; 32]) -> (public: [u8; 32])
    ensures
        public@ == ed25519_public(secret@),
{
    ed25519_dalek::SigningKey::from_bytes(secret).verifying_key().to_bytes()
}

/// Trusted: `ed25519_dalek::Signer::sign` with the key made from `secret`.
/// The contract names the signature and claims what the signature scheme
/// promises: the public key of `secret` accepts it for the same message.
#[verifier::external_body]
fn ed25519_sign(secret: &[u8; 32], message: &[u8]) -> (signature: [u8; 64])
    ensures
        signature@ == ed25519_signature(secret@, message@),
        ed25519_accepts(ed25519_public(secret@), message@, signature@),
{
    let key = ed25519_dalek::SigningKey::from_bytes(secret);
    ed25519_dalek::Signer::sign(&key, message).to_bytes()
}

/// Trusted: `ed25519_dalek::Verifier::verify` on the key decoded by
/// `VerifyingKey::from_bytes`. Bytes that decode to no key accept nothing.
#[verifier::external_body]
fn ed25519_verify(public: &[u8; 32], message: &[u8], signature: &[u8; 64]) -> (accepted: bool)
    ensures
        accepted == ed25519_accepts(public@, message@, signature@),
{
    match ed25519_dalek::VerifyingKey::from_bytes(public) {
        Ok(key) => {
            let signature = ed25519_dalek::Signature::from_bytes(signature);
            ed25519_dalek::Verifier::verify(&key, message, &signature).is_ok()
        },
        Err(_) => false,
    }
}

/// The signature schemes a key can belong to.
#[derive(Clone, Copy, Debug, PartialEq, Eq, Hash, Structural)]
pub enum KeyType {
    ED25519,
}

/// A public key: 32 bytes.
#[derive(Clone, Copy, Debug, Hash)]
pub struct PublicKey {
    pub data: [u8; 32],
}

/// A secret key: 32 bytes.
#[derive(Clone, Copy)]
pub struct SecretKey {
    pub data: [u8; 32],
}

/// A signature: 64 bytes.
#[derive(Clone, Copy, Debug, Hash)]
pub struct Signature {
    pub data: [u8; 64],
}

impl View for PublicKey {
    type V = Seq<u8>;

    open spec fn view(&self) -> Seq<u8> {
        self.data@
    }
}

impl View for SecretKey {
    type V = Seq<u8>;

    open spec fn view(&self) -> Seq<u8> {
        self.data@
    }
}

impl View for Signature {
    type V = Seq<u8>;

    open spec fn view(&self) -> Seq<u8> {
        self.data@
    }
}

impl PartialEq for PublicKey {
    fn eq(&self, other: &Self) -> (same: bool) {
        array_eq(&self.data, &other.data)
    }
}

impl Eq for PublicKey {

}

impl vstd::std_specs::cmp::PartialEqSpecImpl for PublicKey {
    open spec fn obeys_eq_spec() -> bool {
        true
    }

    open spec fn eq_spec(&self, other: &Self) -> bool {
        *self == *other
    }
}

impl PartialEq for Signature {
    fn eq(&self, other: &Self) -> (same: bool) {
        array_eq(&self.data, &other.data)
    }
}

impl Eq for Signature {

}

impl vstd::std_specs::cmp::PartialEqSpecImpl for Signature {
    open spec fn obeys_eq_spec() -> bool {
        true
    }

    open spec fn eq_spec(&self, other: &Self) -> bool {
        *self == *other
    }
}

/// The byte that tags an Ed25519 key in its canonical encoding.
pub const ED25519_TAG: u8 = 0;

/// The key material that a seed stands for: its bytes, cut to 32 or filled
/// up to 32 with spaces.
pub open spec fn seed_key(seed: Seq<u8>) -> Seq<u8> {
    Seq::new(
        32,
        |i: int|
            if i < seed.len() {
                seed[i]
            } else {
                0x20u8
            },
    )
}

impl PublicKey {
    /// The key whose bytes are all zero.
    pub open spec fn zero() -> PublicKey {
        PublicKey { data: vstd::array::spec_array_fill_for_copy_type::<u8, 32>(0u8) }
    }

    /// The key of the given scheme whose bytes are all zero.
    pub fn empty(key_type: KeyType) -> (key: PublicKey)
        ensures
            key == PublicKey::zero(),
            key@ == Seq::new(32, |i: int| 0u8),
    {
        let key = PublicKey { data: [0u8;32] };
        assert(key@ =~= Seq::new(32, |i: int| 0u8));
        key
    }

    /// The scheme this key belongs to.
    pub fn key_type(&self) -> (key_type: KeyType)
        ensures
            key_type == KeyType::ED25519,
    {
        KeyType::ED25519
    }

    /// The canonical encoding: the scheme's tag, then the key bytes.
    pub open spec fn encoding(&self) -> Seq<u8> {
        seq![ED25519_TAG] + self@
    }

    /// The order of keys: byte-lexicographic over the canonical encoding.
    pub open spec fn precedes(&self, other: &PublicKey) -> bool {
        lex_lt(self.encoding(), other.encoding())
    }

    /// Appends the canonical encoding to `buffer`.
    pub fn encode_into(&self, buffer: &mut Vec<u8>)
        ensures
            final(buffer)@ == old(buffer)@ + self.encoding(),
    {
        buffer.push(ED25519_TAG);
        let mut i: usize = 0;
        while i < 32
            invariant
                i <= 32,
                buffer@ == old(buffer)@ + seq![ED25519_TAG] + self@.subrange(0, i as int),
            decreases 32 - i,
        {
            buffer.push(self.data[i]);
            i += 1;
        }
        assert(self@.subrange(0, 32) =~= self@);
    }

    /// Whether this key comes before `other`.
    pub fn lt(&self, other: &PublicKey) -> (less: bool)
        ensures
            less == self.precedes(other),
    {
        let less = array_lt(&self.data, &other.data);
        proof {
            lemma_lex_lt_common_head(seq![ED25519_TAG], self@, other@);
        }
        less
    }
}

/// A common head does not change the lexicographic order of what follows.
pub proof fn lemma_lex_lt_common_head(head: Seq<u8>, a: Seq<u8>, b: Seq<u8>)
    requires
        a.len() == b.len(),
    ensures
        lex_lt(head + a, head + b) == lex_lt(a, b),
{
    let n = head.len() as int;
    if lex_lt(a, b) {
        let i = choose|i: int| lex_lt_at(a, b, i);
        assert((head + a).subrange(0, n + i) =~= head + a.subrange(0, i));
        assert((head + b).subrange(0, n + i) =~= head + b.subrange(0, i));
        assert(lex_lt_at(head + a, head + b, n + i));
    }
    if lex_lt(head + a, head + b) {
        let k = choose|k: int| lex_lt_at(head + a, head + b, k);
        if k < n {
            assert((head + a)[k] == (head + b)[k]);
        }
        let i = k - n;
        assert forall|j: int| 0 <= j < i implies a.subrange(0, i)[j] == b.subrange(0, i)[j] by {
            assert((head + a).subrange(0, k)[n + j] == (head + b).subrange(0, k)[n + j]);
        }
        assert(a.subrange(0, i) =~= b.subrange(0, i));
        assert(lex_lt_at(a, b, i));
    }
}

impl SecretKey {
    /// The key that a seed stands for.
    pub fn from_seed(key_type: KeyType, seed: &str) -> (key: SecretKey)
        ensures
            key@ == seed_key(seed.spec_bytes()),
    {
        let bytes = seed.as_bytes();
        let mut data = [0x20u8;32];
        let mut i: usize = 0;
        while i < 32 && i < bytes.len()
            invariant
                i <= 32,
                i <= bytes@.len(),
                forall|j: int| 0 <= j < i ==> data@[j] == bytes@[j],
                forall|j: int| i <= j < 32 ==> data@[j] == 0x20u8,
            decreases 32 - i,
        {
            data[i] = bytes[i];
            i += 1;
        }
        let key = SecretKey { data };
        assert(key@ =~= seed_key(seed.spec_bytes()));
        key
    }

    /// The scheme this key belongs to.
    pub fn key_type(&self) -> (key_type: KeyType)
        ensures
            key_type == KeyType::ED25519,
    {
        KeyType::ED25519
    }

    /// The public key that belongs to this secret key.
    pub fn public_key(&self) -> (public: PublicKey)
        ensures
            public@ == ed25519_public(self@),
    {
        PublicKey { data: ed25519_derive_public(&self.data) }
    }

    /// Signs `data`. The public key of this secret key accepts the result.
    pub fn sign(&self, data: &[u8]) -> (signature: Signature)
        ensures
            signature@ == ed25519_signature(self@, data@),
            ed25519_accepts(ed25519_public(self@), data@, signature@),
    {
        Signature { data: ed25519_sign(&self.data, data) }
    }
}

impl Signature {
    /// The signature whose bytes are all zero.
    pub open spec fn zero() -> Signature {
        Signature { data: vstd::array::spec_array_fill_for_copy_type::<u8, 64>(0u8) }
    }

    /// The signature of the given scheme whose bytes are all zero.
    pub fn empty(key_type: KeyType) -> (signature: Signature)
        ensures
            signature == Signature::zero(),
            signature@ == Seq::new(64, |i: int| 0u8),
    {
        let signature = Signature { data: [0u8;64] };
        assert(signature@ =~= Seq::new(64, |i: int| 0u8));
        signature
    }

    /// Whether `public_key` accepts this signature for `data`.
    pub fn verify(&self, data: &[u8], public_key: &PublicKey) -> (accepted: bool)
        ensures
            accepted == ed25519_accepts(public_key@, data@, self@),
    {
        ed25519_verify(&public_key.data, data, &self.data)
    }
}

} // verus!
