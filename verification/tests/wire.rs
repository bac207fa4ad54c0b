use near_network::crypto::{KeyType, PublicKey, SecretKey, Signature};
use near_network::edge::{Edge, EdgeInfo};
use near_network::types::PeerId;
use near_network::wire::{ADDED_WIRE_LEN, EDGE_INFO_WIRE_LEN, REMOVED_WIRE_LEN};

fn plain_edge() -> Edge {
    Edge {
        peer0: PeerId(PublicKey { data: [1; 32] }),
        peer1: PeerId(PublicKey { data: [2; 32] }),
        nonce: 0x0102030405060708,
        signature0: Signature { data: [3; 64] },
        signature1: Signature { data: [4; 64] },
        removal_info: None,
    }
}

fn same(a: &Edge, b: &Edge) -> bool {
    a.peer0 == b.peer0
        && a.peer1 == b.peer1
        && a.nonce == b.nonce
        && a.signature0 == b.signature0
        && a.signature1 == b.signature1
        && a.removal_info == b.removal_info
}

#[test]
fn added_edge_on_the_wire() {
    let bytes = plain_edge().to_bytes();
    assert_eq!(bytes.len(), ADDED_WIRE_LEN);
    assert_eq!(bytes.len(), 205);
    let mut expected = vec![0u8];
    expected.extend_from_slice(&[1; 32]);
    expected.push(0);
    expected.extend_from_slice(&[2; 32]);
    expected.extend_from_slice(&[8, 7, 6, 5, 4, 3, 2, 1]);
    expected.push(0);
    expected.extend_from_slice(&[3; 64]);
    expected.push(0);
    expected.extend_from_slice(&[4; 64]);
    expected.push(0);
    assert_eq!(bytes, expected);
}

#[test]
fn removed_edge_on_the_wire() {
    let edge = Edge { removal_info: Some((true, Signature { data: [5; 64] })), ..plain_edge() };
    let bytes = edge.to_bytes();
    assert_eq!(bytes.len(), REMOVED_WIRE_LEN);
    assert_eq!(bytes.len(), 271);
    assert_eq!(&bytes[..204], &plain_edge().to_bytes()[..204]);
    assert_eq!(&bytes[204..207], &[1, 1, 0]);
    assert_eq!(&bytes[207..], &[5u8; 64][..]);
    let by_peer1 = Edge { removal_info: Some((false, Signature { data: [5; 64] })), ..plain_edge() };
    assert_eq!(&by_peer1.to_bytes()[204..207], &[1, 0, 0]);
}

#[test]
fn edges_come_back_from_the_wire() {
    let edges = [
        plain_edge(),
        Edge { removal_info: Some((true, Signature { data: [5; 64] })), ..plain_edge() },
        Edge { removal_info: Some((false, Signature { data: [6; 64] })), nonce: 0, ..plain_edge() },
        Edge { nonce: u64::MAX, ..plain_edge() },
    ];
    for edge in edges.iter() {
        let read = Edge::from_bytes(&edge.to_bytes()).unwrap();
        assert!(same(&read, edge));
    }
}

#[test]
fn a_signed_edge_survives_the_wire() {
    let sk_a = SecretKey::from_seed(KeyType::ED25519, "alice");
    let sk_b = SecretKey::from_seed(KeyType::ED25519, "bob");
    let (a, b) = (PeerId::new(sk_a.public_key()), PeerId::new(sk_b.public_key()));
    let info = EdgeInfo::new(a, b, 1, &sk_a);
    let info = EdgeInfo::from_bytes(&info.to_bytes()).unwrap();
    assert!(Edge::partial_verify(b, a, &info));
    let edge = Edge::build_with_secret_key(b, a, 1, &sk_b, info.signature);
    let read = Edge::from_bytes(&edge.to_bytes()).unwrap();
    assert!(read.verify());
    let removed = read.remove_edge(b, &sk_b);
    let read = Edge::from_bytes(&removed.to_bytes()).unwrap();
    assert!(read.verify());
    assert!(same(&read, &removed));
}

#[test]
fn what_is_no_edge_is_not_read() {
    let good = plain_edge().to_bytes();
    assert!(Edge::from_bytes(&good).is_some());
    assert!(Edge::from_bytes(&[]).is_none());
    assert!(Edge::from_bytes(&good[..204]).is_none());
    let mut longer = good.clone();
    longer.push(0);
    assert!(Edge::from_bytes(&longer).is_none());
    // The tags of keys and signatures, and the mark of the removal.
    for at in [0usize, 33, 74, 139, 204] {
        let mut bad = good.clone();
        bad[at] = 1;
        assert!(Edge::from_bytes(&bad).is_none());
    }
    let removed =
        Edge { removal_info: Some((true, Signature { data: [5; 64] })), ..plain_edge() }.to_bytes();
    assert!(Edge::from_bytes(&removed).is_some());
    assert!(Edge::from_bytes(&removed[..270]).is_none());
    for (at, value) in [(204usize, 0u8), (204, 2), (205, 2), (206, 1)] {
        let mut bad = removed.clone();
        bad[at] = value;
        assert!(Edge::from_bytes(&bad).is_none());
    }
    // An addition of the length of a removal.
    let mut padded = good.clone();
    padded.resize(271, 0);
    assert!(Edge::from_bytes(&padded).is_none());
}

#[test]
fn edge_info_on_the_wire() {
    let info = EdgeInfo { nonce: 258, signature: Signature { data: [9; 64] } };
    let bytes = info.to_bytes();
    assert_eq!(bytes.len(), EDGE_INFO_WIRE_LEN);
    assert_eq!(&bytes[..9], &[2, 1, 0, 0, 0, 0, 0, 0, 0]);
    assert_eq!(&bytes[9..], &[9u8; 64][..]);
    let read = EdgeInfo::from_bytes(&bytes).unwrap();
    assert_eq!(read.nonce, 258);
    assert!(read.signature == info.signature);
    assert!(EdgeInfo::from_bytes(&bytes[..72]).is_none());
    let mut bad = bytes.clone();
    bad[8] = 1;
    assert!(EdgeInfo::from_bytes(&bad).is_none());
}
