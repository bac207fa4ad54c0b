//! Signers: what holds a key pair and signs with it.

use crate::crypto::{
    ed25519_accepts, ed25519_public, ed25519_signature, seed_key, KeyType, PublicKey, SecretKey,
    Signature,
};
use vstd::prelude::*;
use vstd::string::StringSliceAdditionalSpecFns;

verus! {

/// Something that signs data and says under which public key.
pub trait Signer {
    /// The public key of the signer.
    spec fn spec_public_key(&self) -> PublicKey;

    /// The public key of the signer.
    fn public_key(&self) -> (key: PublicKey)
        ensures
            key == self.spec_public_key(),
    ;

    /// Signs `data`.
    fn sign(&self, data: &[u8]) -> (signature: Signature)
    ;

    /// Whether `signature` is one for `data` under the signer's public key.
    fn verify(&self, data: &[u8], signature: &Signature) -> (accepted: bool)
        ensures
            accepted == ed25519_accepts(self.spec_public_key()@, data@, signature@),
    {
        signature.verify(data, &self.public_key())
    }
}

/// A signer without a key: its public key and its signatures are all
/// zeros.
pub struct EmptySigner {}

impl Signer for EmptySigner {
    open spec fn spec_public_key(&self) -> PublicKey {
        PublicKey::zero()
    }

    fn public_key(&self) -> (key: PublicKey) {
        PublicKey::empty(KeyType::ED25519)
    }

    fn sign(&self, _data: &[u8]) -> (signature: Signature)
        ensures
            signature == Signature::zero(),
    {
        Signature::empty(KeyType::ED25519)
    }
}

/// A key pair as it is kept in a key file, with the account it is for.
pub struct KeyFile {
    pub account_id: String,
    pub public_key: PublicKey,
    pub secret_key: SecretKey,
}

/// A signer that keeps its secret key in memory.
pub struct InMemorySigner {
    pub account_id: String,
    pub public_key: PublicKey,
    pub secret_key: SecretKey,
}

impl InMemorySigner {
    /// The signer of `account_id` whose secret key is what `seed` stands
    /// for.
    pub fn from_seed(account_id: &str, key_type: KeyType, seed: &str) -> (signer: InMemorySigner)
        ensures
            signer.account_id@ == account_id@,
            signer.secret_key@ == seed_key(seed.spec_bytes()),
            signer.public_key@ == ed25519_public(signer.secret_key@),
    {
        let secret_key = SecretKey::from_seed(key_type, seed);
        InMemorySigner {
            account_id: account_id.to_owned(),
            public_key: secret_key.public_key(),
            secret_key,
        }
    }

    /// The signer of `account_id` with the given secret key.
    pub fn from_secret_key(account_id: String, secret_key: SecretKey) -> (signer: InMemorySigner)
        ensures
            signer.account_id == account_id,
            signer.secret_key == secret_key,
            signer.public_key@ == ed25519_public(secret_key@),
    {
        InMemorySigner { account_id, public_key: secret_key.public_key(), secret_key }
    }

    /// The signer that a key file describes.
    pub fn from_key_file(key_file: KeyFile) -> (signer: InMemorySigner)
        ensures
            signer.account_id == key_file.account_id,
            signer.public_key == key_file.public_key,
            signer.secret_key == key_file.secret_key,
    {
        InMemorySigner {
            account_id: key_file.account_id,
            public_key: key_file.public_key,
            secret_key: key_file.secret_key,
        }
    }

    /// The key file that describes this signer.
    pub fn to_key_file(&self) -> (key_file: KeyFile)
        ensures
            key_file.account_id@ == self.account_id@,
            key_file.public_key == self.public_key,
            key_file.secret_key == self.secret_key,
    {
        KeyFile {
            account_id: self.account_id.clone(),
            public_key: self.public_key,
            secret_key: self.secret_key,
        }
    }
}

impl Signer for InMemorySigner {
    open spec fn spec_public_key(&self) -> PublicKey {
        self.public_key
    }

    fn public_key(&self) -> (key: PublicKey) {
        self.public_key
    }

    /// Signs `data` with the secret key. The public key that belongs to
    /// the secret key accepts the signature.
    fn sign(&self, data: &[u8]) -> (signature: Signature)
        ensures
            signature@ == ed25519_signature(self.secret_key@, data@),
            ed25519_accepts(ed25519_public(self.secret_key@), data@, signature@),
    {
        self.secret_key.sign(data)
    }
}

} // verus!
