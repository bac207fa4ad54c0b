use near_network::crypto::{KeyType, PublicKey, SecretKey, Signature};
use near_network::edge::{Edge, EdgeInfo, EdgeType};
use near_network::types::PeerId;

fn key_pair(seed: &str) -> (PeerId, SecretKey) {
    let secret = SecretKey::from_seed(KeyType::ED25519, seed);
    (PeerId::new(secret.public_key()), secret)
}

/// Two peers with their keys, the smaller peer first.
fn ordered_pair() -> ((PeerId, SecretKey), (PeerId, SecretKey)) {
    let a = key_pair("alice");
    let b = key_pair("bob");
    if a.0.lt(&b.0) {
        (a, b)
    } else {
        (b, a)
    }
}

fn added_edge(nonce: u64) -> Edge {
    let ((a, sk_a), (b, sk_b)) = ordered_pair();
    let info = EdgeInfo::new(a, b, nonce, &sk_a);
    Edge::build_with_secret_key(b, a, nonce, &sk_b, info.signature)
}

#[test]
fn build_hash_of_fixed_peers() {
    let peer0 = PeerId::new(PublicKey { data: [1u8; 32] });
    let peer1 = PeerId::new(PublicKey { data: [2u8; 32] });
    assert_eq!(
        Edge::build_hash(&peer0, &peer1, 1).0,
        [
            104, 196, 146, 162, 37, 104, 142, 23, 169, 97, 92, 103, 146, 52, 116, 219, 213, 1, 87,
            127, 18, 33, 119, 23, 225, 80, 13, 60, 136, 39, 204, 112
        ]
    );
    assert_eq!(
        Edge::build_hash(&peer0, &peer1, 2).0,
        [
            251, 62, 215, 109, 127, 72, 63, 7, 233, 225, 80, 54, 173, 31, 12, 146, 18, 196, 156,
            136, 45, 1, 7, 254, 178, 35, 17, 182, 4, 58, 16, 72
        ]
    );
    // The nonce goes in with its least significant byte first.
    assert_eq!(
        Edge::build_hash(&peer0, &peer1, 0x0102030405060708).0,
        [
            144, 167, 182, 130, 240, 26, 224, 206, 52, 172, 189, 200, 120, 13, 126, 197, 91, 4,
            197, 94, 157, 10, 11, 98, 154, 131, 43, 43, 182, 162, 242, 51
        ]
    );
    assert!(Edge::build_hash(&peer0, &peer1, 1) != Edge::build_hash(&peer1, &peer0, 1));
}

#[test]
fn key_puts_the_smaller_peer_first() {
    let ((a, _), (b, _)) = ordered_pair();
    assert!(Edge::key(a, b) == (a, b));
    assert!(Edge::key(b, a) == (a, b));
    assert!(Edge::key(a, a) == (a, a));
}

#[test]
fn two_party_handshake() {
    let ((a, sk_a), (b, sk_b)) = ordered_pair();
    let info = EdgeInfo::new(a, b, 1, &sk_a);
    assert_eq!(info.nonce, 1);
    assert!(Edge::partial_verify(b, a, &info));
    let edge = Edge::build_with_secret_key(b, a, 1, &sk_b, info.signature);
    assert!(edge.verify());
    assert_eq!(edge.edge_type(), EdgeType::Added);
    assert!(edge.peer0 == a);
    assert!(edge.peer1 == b);
    assert_eq!(edge.nonce, 1);
    assert!(edge.removal_info.is_none());
    assert!(edge.signature0 == info.signature);
}

#[test]
fn handshake_from_the_larger_peer() {
    let ((a, sk_a), (b, sk_b)) = ordered_pair();
    let info = EdgeInfo::new(b, a, 7, &sk_b);
    assert!(Edge::partial_verify(a, b, &info));
    let edge = Edge::build_with_secret_key(a, b, 7, &sk_a, info.signature);
    assert!(edge.verify());
    assert!(edge.peer0 == a && edge.peer1 == b);
    assert!(edge.signature1 == info.signature);
}

#[test]
fn partial_verify_rejects_a_stranger() {
    let ((a, sk_a), (b, _)) = ordered_pair();
    let (c, sk_c) = key_pair("carol");
    // Carol signs, but the proposal is said to come from b.
    let forged = EdgeInfo::new(a, b, 1, &sk_c);
    assert!(!Edge::partial_verify(a, b, &forged));
    // a's own proposal does not count as b's.
    let own = EdgeInfo::new(a, b, 1, &sk_a);
    assert!(!Edge::partial_verify(a, b, &own));
    assert!(Edge::partial_verify(b, a, &own));
    // The nonce is part of what is signed.
    let other_nonce = EdgeInfo { nonce: 3, signature: own.signature };
    assert!(!Edge::partial_verify(b, a, &other_nonce));
    assert!(!Edge::partial_verify(c, a, &EdgeInfo::new(a, b, 1, &sk_a)));
}

#[test]
fn new_orders_peers_and_signatures() {
    let ((a, _), (b, _)) = ordered_pair();
    let sig_a = Signature { data: [1u8; 64] };
    let sig_b = Signature { data: [2u8; 64] };
    let edge = Edge::new(b, a, 5, sig_b, sig_a);
    assert!(edge.peer0 == a && edge.peer1 == b);
    assert!(edge.signature0 == sig_a && edge.signature1 == sig_b);
    assert_eq!(edge.nonce, 5);
    assert!(edge.removal_info.is_none());
    let same = Edge::new(a, b, 5, sig_a, sig_b);
    assert!(same.peer0 == a && same.signature0 == sig_a && same.signature1 == sig_b);
    assert!(same.get_pair() == (a, b));
    // Made-up signatures vouch for nothing.
    assert!(!edge.verify());
}

#[test]
fn verify_wants_ordered_peers() {
    let edge = added_edge(1);
    assert!(edge.verify());
    let swapped = Edge {
        peer0: edge.peer1,
        peer1: edge.peer0,
        signature0: edge.signature1,
        signature1: edge.signature0,
        ..edge
    };
    assert!(!swapped.verify());
    let (a, sk_a) = key_pair("alice");
    let signature = EdgeInfo::new(a, a, 1, &sk_a).signature;
    let looped = Edge { peer0: a, peer1: a, nonce: 1, signature0: signature, signature1: signature, removal_info: None };
    assert!(!looped.verify());
}

#[test]
fn verify_wants_both_signatures_for_the_nonce() {
    let edge = added_edge(1);
    assert!(!Edge { nonce: 3, ..edge }.verify());
    assert!(!Edge { signature0: edge.signature1, ..edge }.verify());
    assert!(!Edge { signature1: edge.signature0, ..edge }.verify());
    assert!(!Edge { removal_info: Some((true, edge.signature0)), ..edge }.verify());
    // An even nonce needs a removal.
    assert!(!Edge { nonce: 2, ..edge }.verify());
    assert!(!Edge { nonce: 0, ..edge }.verify());
}

#[test]
fn edge_lifecycle() {
    let ((a, sk_a), (b, sk_b)) = ordered_pair();
    let edge = added_edge(1);
    assert!(edge.verify());

    let removed = edge.remove_edge(a, &sk_a);
    assert_eq!(removed.nonce, 2);
    assert_eq!(removed.edge_type(), EdgeType::Removed);
    assert!(removed.verify());
    assert!(removed.peer0 == a && removed.peer1 == b);
    assert!(removed.signature0 == edge.signature0 && removed.signature1 == edge.signature1);
    assert_eq!(removed.removal_info.map(|(by_peer0, _)| by_peer0), Some(true));

    let removed = edge.remove_edge(b, &sk_b);
    assert_eq!(removed.nonce, 2);
    assert!(removed.verify());
    assert_eq!(removed.removal_info.map(|(by_peer0, _)| by_peer0), Some(false));
}

#[test]
fn removal_by_a_stranger_is_not_valid() {
    let ((a, sk_a), (b, _)) = ordered_pair();
    let (c, sk_c) = key_pair("carol");
    let edge = added_edge(1);
    assert!(!edge.remove_edge(c, &sk_c).verify());
    assert!(!edge.remove_edge(a, &sk_c).verify());
    // Signed by a in the name of b.
    assert!(!edge.remove_edge(b, &sk_a).verify());
    let removed = edge.remove_edge(a, &sk_a);
    assert!(!Edge { nonce: 4, ..removed }.verify());
    assert!(!Edge { removal_info: None, ..removed }.verify());
    assert!(!Edge { removal_info: Some((false, removed.removal_info.unwrap().1)), ..removed }.verify());
}

#[test]
fn edge_type_follows_parity() {
    let edge = added_edge(1);
    assert_eq!(Edge { nonce: 1, ..edge }.edge_type(), EdgeType::Added);
    assert_eq!(Edge { nonce: 2, ..edge }.edge_type(), EdgeType::Removed);
    assert_eq!(Edge { nonce: 0, ..edge }.edge_type(), EdgeType::Removed);
    assert_eq!(Edge { nonce: u64::MAX, ..edge }.edge_type(), EdgeType::Added);
}

#[test]
fn next_nonce_is_the_next_odd_number() {
    let edge = added_edge(1);
    assert_eq!(Edge { nonce: 1, ..edge }.next_nonce(), 3);
    assert_eq!(Edge { nonce: 2, ..edge }.next_nonce(), 3);
    assert_eq!(Edge { nonce: 0, ..edge }.next_nonce(), 1);
    assert_eq!(Edge { nonce: 7, ..edge }.next_nonce(), 9);
    assert_eq!(Edge { nonce: u64::MAX - 1, ..edge }.next_nonce(), u64::MAX);
}

#[test]
fn contains_peer_and_other() {
    let ((a, _), (b, _)) = ordered_pair();
    let (c, _) = key_pair("carol");
    let edge = added_edge(1);
    assert!(edge.contains_peer(&a));
    assert!(edge.contains_peer(&b));
    assert!(!edge.contains_peer(&c));
    assert!(edge.other(&a) == Some(b));
    assert!(edge.other(&b) == Some(a));
    assert!(edge.other(&c).is_none());
}
