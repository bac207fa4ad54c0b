use near_network::byte_array::{array_eq, array_lt};
use near_network::crypto::{KeyType, PublicKey, SecretKey, Signature};
use near_network::hash::{hash, CryptoHash};
use near_network::signer::{EmptySigner, InMemorySigner, KeyFile, Signer};
use near_network::types::PeerId;

fn padded(seed: &str) -> [u8; 32] {
    let mut bytes = [b' '; 32];
    bytes[..seed.len()].copy_from_slice(seed.as_bytes());
    bytes
}

const ALICE_PUBLIC: [u8; 32] = [
    33, 217, 30, 192, 62, 117, 93, 91, 61, 145, 154, 202, 60, 49, 32, 183, 131, 100, 59, 135, 175,
    107, 174, 210, 45, 194, 84, 100, 192, 181, 59, 111,
];

const ALICE_SIGNS_HELLO: [u8; 64] = [
    157, 151, 230, 235, 247, 250, 86, 119, 69, 136, 168, 45, 123, 110, 72, 93, 0, 246, 95, 189,
    154, 163, 167, 43, 147, 236, 59, 59, 207, 13, 188, 249, 119, 145, 185, 183, 41, 114, 13, 192,
    95, 224, 159, 178, 54, 5, 6, 42, 212, 209, 234, 57, 11, 214, 98, 116, 246, 245, 175, 118, 64,
    247, 3, 10,
];

#[test]
fn hash_of_abc() {
    let digest = hash(b"abc");
    assert_eq!(
        digest.0,
        [
            186, 120, 22, 191, 143, 1, 207, 234, 65, 65, 64, 222, 93, 174, 34, 35, 176, 3, 97,
            163, 150, 23, 122, 156, 180, 16, 255, 97, 242, 0, 21, 173
        ]
    );
    assert_eq!(digest.as_bytes(), &digest.0);
    assert!(digest == CryptoHash(digest.0));
    assert!(digest != hash(b"abd"));
}

#[test]
fn seed_is_cut_or_filled_with_spaces() {
    assert_eq!(SecretKey::from_seed(KeyType::ED25519, "alice").data, padded("alice"));
    assert_eq!(SecretKey::from_seed(KeyType::ED25519, "").data, [b' '; 32]);
    let long = "0123456789abcdef0123456789abcdefXYZ";
    assert_eq!(SecretKey::from_seed(KeyType::ED25519, long).data, padded(&long[..32]));
    assert_eq!(SecretKey::from_seed(KeyType::ED25519, "alice").key_type(), KeyType::ED25519);
}

#[test]
fn public_key_of_seed() {
    let secret = SecretKey::from_seed(KeyType::ED25519, "alice");
    assert_eq!(secret.public_key().data, ALICE_PUBLIC);
    assert_eq!(secret.public_key().key_type(), KeyType::ED25519);
}

#[test]
fn signature_of_hello() {
    let secret = SecretKey::from_seed(KeyType::ED25519, "alice");
    assert_eq!(secret.sign(b"hello").data, ALICE_SIGNS_HELLO);
}

#[test]
fn signing_round_trip() {
    let alice = SecretKey::from_seed(KeyType::ED25519, "alice");
    let bob = SecretKey::from_seed(KeyType::ED25519, "bob");
    let signature = alice.sign(b"hello");
    assert!(signature.verify(b"hello", &alice.public_key()));
    assert!(!signature.verify(b"hello", &bob.public_key()));
    assert!(!signature.verify(b"hullo", &alice.public_key()));
    assert!(!bob.sign(b"hello").verify(b"hello", &alice.public_key()));
    assert!(!Signature::empty(KeyType::ED25519).verify(b"hello", &alice.public_key()));
}

#[test]
fn bytes_that_are_no_key_accept_nothing() {
    // 32 bytes of 0x02 encode no point of the curve.
    let no_key = PublicKey { data: [2u8; 32] };
    let alice = SecretKey::from_seed(KeyType::ED25519, "alice");
    assert!(!alice.sign(b"hello").verify(b"hello", &no_key));
}

#[test]
fn empty_key_and_signature_are_zeros() {
    assert_eq!(PublicKey::empty(KeyType::ED25519).data, [0u8; 32]);
    assert_eq!(Signature::empty(KeyType::ED25519).data, [0u8; 64]);
}

#[test]
fn keys_are_ordered_by_their_bytes() {
    let mut low = [7u8; 32];
    let mut high = [7u8; 32];
    low[31] = 1;
    high[31] = 2;
    let (low, high) = (PublicKey { data: low }, PublicKey { data: high });
    assert!(low.lt(&high));
    assert!(!high.lt(&low));
    assert!(!low.lt(&low));
    let mut first = [0u8; 32];
    first[0] = 9;
    let first = PublicKey { data: first };
    assert!(high.lt(&first));
    assert!(!first.lt(&high));
    assert!(PeerId::new(low).lt(&PeerId::new(high)));
    assert!(!PeerId::new(high).lt(&PeerId::new(low)));
    assert!(PeerId::new(low) == PeerId::new(low));
    assert!(PeerId::new(low) != PeerId::new(high));
    assert_eq!(PeerId::new(low).public_key(), low);
}

#[test]
fn byte_arrays_compare() {
    assert!(array_eq(&[1u8, 2, 3], &[1u8, 2, 3]));
    assert!(!array_eq(&[1u8, 2, 3], &[1u8, 2, 4]));
    assert!(array_lt(&[1u8, 2, 3], &[1u8, 2, 4]));
    assert!(array_lt(&[1u8, 2, 3], &[2u8, 0, 0]));
    assert!(!array_lt(&[1u8, 2, 3], &[1u8, 2, 3]));
    assert!(!array_lt(&[1u8, 3, 0], &[1u8, 2, 9]));
    let none: [u8; 0] = [];
    assert!(array_eq(&none, &none));
    assert!(!array_lt(&none, &none));
}

#[test]
fn encoding_is_tag_then_key() {
    let key = PublicKey { data: ALICE_PUBLIC };
    let mut buffer = vec![0xffu8];
    key.encode_into(&mut buffer);
    assert_eq!(buffer.len(), 34);
    assert_eq!(buffer[0], 0xff);
    assert_eq!(buffer[1], 0);
    assert_eq!(&buffer[2..], &ALICE_PUBLIC[..]);
    let mut other = Vec::new();
    PeerId::new(key).encode_into(&mut other);
    assert_eq!(&other[..], &buffer[1..]);
}

#[test]
fn empty_signer_signs_with_zeros() {
    let signer = EmptySigner {};
    assert_eq!(signer.public_key().data, [0u8; 32]);
    assert_eq!(signer.sign(b"hello").data, [0u8; 64]);
    assert!(!signer.verify(b"hello", &signer.sign(b"hello")));
}

#[test]
fn in_memory_signer_from_seed() {
    let signer = InMemorySigner::from_seed("alice.near", KeyType::ED25519, "alice");
    assert_eq!(signer.account_id, "alice.near");
    assert_eq!(signer.secret_key.data, padded("alice"));
    assert_eq!(signer.public_key.data, ALICE_PUBLIC);
    assert_eq!(signer.public_key().data, ALICE_PUBLIC);
    let signature = signer.sign(b"hello");
    assert_eq!(signature.data, ALICE_SIGNS_HELLO);
    assert!(signer.verify(b"hello", &signature));
    assert!(!signer.verify(b"other", &signature));
}

#[test]
fn in_memory_signer_from_secret_key() {
    let secret = SecretKey::from_seed(KeyType::ED25519, "alice");
    let signer = InMemorySigner::from_secret_key("alice.near".to_string(), secret);
    assert_eq!(signer.account_id, "alice.near");
    assert_eq!(signer.secret_key.data, secret.data);
    assert_eq!(signer.public_key.data, ALICE_PUBLIC);
}

#[test]
fn in_memory_signer_and_key_file() {
    let signer = InMemorySigner::from_seed("alice.near", KeyType::ED25519, "alice");
    let key_file = signer.to_key_file();
    assert_eq!(key_file.account_id, "alice.near");
    assert_eq!(key_file.public_key.data, ALICE_PUBLIC);
    assert_eq!(key_file.secret_key.data, padded("alice"));
    let other = PublicKey { data: [5u8; 32] };
    let back = InMemorySigner::from_key_file(KeyFile {
        account_id: "bob.near".to_string(),
        public_key: other,
        secret_key: key_file.secret_key,
    });
    assert_eq!(back.account_id, "bob.near");
    assert_eq!(back.public_key.data, [5u8; 32]);
    assert_eq!(back.secret_key.data, padded("alice"));
    assert!(!back.verify(b"hello", &back.sign(b"hello")));
}
