//! The wire format of edges.
//!
//! An edge goes over the wire as its fields in order: the two peers, the
//! nonce with its least significant byte first, the two signatures, and
//! the removal. A key and a signature are each led by the tag of their
//! scheme. The removal is one byte 0 where there is none; else a byte 1,
//! a byte that is 1 where the smaller peer removes and 0 where the larger
//! one does, and the signature of that peer.

use crate::crypto::{PublicKey, Signature, ED25519_TAG};
use crate::edge::{write_u64_le, Edge, EdgeInfo};
use crate::types::PeerId;
use vstd::bytes::{
    lemma_auto_spec_u64_to_from_le_bytes, spec_u64_from_le_bytes, spec_u64_to_le_bytes,
    u64_from_le_bytes,
};
use vstd::prelude::*;
use vstd::slice::slice_subrange;

verus! {

/// The length of a key on the wire.
pub const KEY_WIRE_LEN: usize = 33;

/// The length of a signature on the wire.
pub const SIGNATURE_WIRE_LEN: usize = 65;

/// The length of an edge proposal on the wire.
pub const EDGE_INFO_WIRE_LEN: usize = 73;

/// The length of an addition edge on the wire.
pub const ADDED_WIRE_LEN: usize = 205;

/// The length of a removal edge on the wire.
pub const REMOVED_WIRE_LEN: usize = 271;

/// A signature on the wire: the tag of its scheme, then its bytes.
pub open spec fn signature_wire(signature: Signature) -> Seq<u8> {
    seq![ED25519_TAG] + signature@
}

/// The byte that says which peer removes an edge.
pub open spec fn party_byte(by_peer0: bool) -> u8 {
    if by_peer0 {
        1
    } else {
        0
    }
}

/// The removal of an edge on the wire.
pub open spec fn removal_wire(removal: Option<(bool, Signature)>) -> Seq<u8> {
    match removal {
        Some((by_peer0, signature)) => seq![1u8, party_byte(by_peer0)] + signature_wire(signature),
        None => seq![0u8],
    }
}

/// An edge on the wire.
pub open spec fn edge_wire(edge: Edge) -> Seq<u8> {
    edge.peer0.encoding() + edge.peer1.encoding() + spec_u64_to_le_bytes(edge.nonce)
        + signature_wire(edge.signature0) + signature_wire(edge.signature1) + removal_wire(
        edge.removal_info,
    )
}

/// An edge proposal on the wire: the nonce, then the signature.
pub open spec fn edge_info_wire(info: EdgeInfo) -> Seq<u8> {
    spec_u64_to_le_bytes(info.nonce) + signature_wire(info.signature)
}

/// Where the fields of an edge stand on the wire.
pub proof fn lemma_edge_wire_shape(edge: Edge)
    ensures
        edge_wire(edge).len() == if edge.removal_info is None {
            ADDED_WIRE_LEN
        } else {
            REMOVED_WIRE_LEN
        },
        edge_wire(edge)[0] == ED25519_TAG,
        edge_wire(edge).subrange(1, 33) == edge.peer0.0@,
        edge_wire(edge)[33] == ED25519_TAG,
        edge_wire(edge).subrange(34, 66) == edge.peer1.0@,
        edge_wire(edge).subrange(66, 74) == spec_u64_to_le_bytes(edge.nonce),
        edge_wire(edge)[74] == ED25519_TAG,
        edge_wire(edge).subrange(75, 139) == edge.signature0@,
        edge_wire(edge)[139] == ED25519_TAG,
        edge_wire(edge).subrange(140, 204) == edge.signature1@,
        match edge.removal_info {
            Some((by_peer0, signature)) => {
                &&& edge_wire(edge)[204] == 1
                &&& edge_wire(edge)[205] == party_byte(by_peer0)
                &&& edge_wire(edge)[206] == ED25519_TAG
                &&& edge_wire(edge).subrange(207, 271) == signature@
            },
            None => edge_wire(edge)[204] == 0,
        },
{
    lemma_auto_spec_u64_to_from_le_bytes();
    let wire = edge_wire(edge);
    assert(spec_u64_to_le_bytes(edge.nonce).len() == 8);
    assert(wire.subrange(1, 33) =~= edge.peer0.0@);
    assert(wire.subrange(34, 66) =~= edge.peer1.0@);
    assert(wire.subrange(66, 74) =~= spec_u64_to_le_bytes(edge.nonce));
    assert(wire.subrange(75, 139) =~= edge.signature0@);
    assert(wire.subrange(140, 204) =~= edge.signature1@);
    match edge.removal_info {
        Some((by_peer0, signature)) => {
            assert(wire.subrange(207, 271) =~= signature@);
        },
        None => {},
    }
}

/// Two edges that are the same on the wire are the same.
pub proof fn lemma_edge_wire_injective(one: Edge, other: Edge)
    requires
        edge_wire(one) == edge_wire(other),
    ensures
        one == other,
{
    lemma_auto_spec_u64_to_from_le_bytes();
    lemma_edge_wire_shape(one);
    lemma_edge_wire_shape(other);
    assert(one.peer0.0.data =~= other.peer0.0.data);
    assert(one.peer1.0.data =~= other.peer1.0.data);
    assert(one.signature0.data =~= other.signature0.data);
    assert(one.signature1.data =~= other.signature1.data);
    assert(one.nonce == other.nonce) by {
        assert(spec_u64_from_le_bytes(spec_u64_to_le_bytes(one.nonce)) == one.nonce);
        assert(spec_u64_from_le_bytes(spec_u64_to_le_bytes(other.nonce)) == other.nonce);
    }
    match (one.removal_info, other.removal_info) {
        (Some((by_one, sig_one)), Some((by_other, sig_other))) => {
            assert(sig_one.data =~= sig_other.data);
        },
        _ => {},
    }
}

/// Appends a signature as it goes over the wire.
fn write_signature(signature: &Signature, buffer: &mut Vec<u8>)
    ensures
        final(buffer)@ == old(buffer)@ + signature_wire(*signature),
{
    buffer.push(ED25519_TAG);
    let mut i: usize = 0;
    while i < 64
        invariant
            i <= 64,
            buffer@ == old(buffer)@ + seq![ED25519_TAG] + signature@.subrange(0, i as int),
        decreases 64 - i,
    {
        buffer.push(signature.data[i]);
        i += 1;
    }
    assert(signature@.subrange(0, 64) =~= signature@);
}

/// Reads what follows the tag at `at`: `N` bytes, if the tag is that of
/// the scheme.
fn read_tagged<const N: usize>(bytes: &[u8], at: usize) -> (data: Option<[u8; N]>)
    requires
        at + 1 + N <= bytes@.len(),
    ensures
        match data {
            Some(data) => bytes@[at as int] == ED25519_TAG && data@ == bytes@.subrange(
                at + 1,
                at + 1 + N,
            ),
            None => bytes@[at as int] != ED25519_TAG,
        },
{
    if bytes[at] != ED25519_TAG {
        return None;
    }
    let mut data = [0u8;N];
    let mut i: usize = 0;
    assert(bytes@.len() == bytes.len());
    while i < N
        invariant
            i <= N,
            at + 1 + N <= bytes@.len() <= usize::MAX,
            forall|j: int| 0 <= j < i ==> data@[j] == bytes@[at + 1 + j],
        decreases N - i,
    {
        data[i] = bytes[at + 1 + i];
        i += 1;
    }
    assert(data@ =~= bytes@.subrange(at + 1, at + 1 + N));
    Some(data)
}

impl EdgeInfo {
    /// The proposal as it goes over the wire.
    pub fn to_bytes(&self) -> (bytes: Vec<u8>)
        ensures
            bytes@ == edge_info_wire(*self),
    {
        let mut bytes: Vec<u8> = Vec::new();
        write_u64_le(&mut bytes, self.nonce);
        write_signature(&self.signature, &mut bytes);
        assert(bytes@ =~= edge_info_wire(*self));
        bytes
    }

    /// The proposal that `bytes` are on the wire, if they are one.
    pub fn from_bytes(bytes: &[u8]) -> (info: Option<EdgeInfo>)
        ensures
            match info {
                Some(info) => edge_info_wire(info) == bytes@,
                None => forall|info: EdgeInfo| edge_info_wire(info) != bytes@,
            },
    {
        proof {
            lemma_auto_spec_u64_to_from_le_bytes();
        }
        if bytes.len() != EDGE_INFO_WIRE_LEN {
            return None;
        }
        let nonce = u64_from_le_bytes(slice_subrange(bytes, 0, 8));
        match read_tagged::<64>(bytes, 8) {
            Some(data) => {
                let info = EdgeInfo { nonce, signature: Signature { data } };
                assert(edge_info_wire(info) =~= bytes@) by {
                    assert(spec_u64_to_le_bytes(nonce) == bytes@.subrange(0, 8));
                }
                Some(info)
            },
            None => {
                assert forall|info: EdgeInfo| edge_info_wire(info) != bytes@ by {
                    assert(edge_info_wire(info)[8] == ED25519_TAG);
                }
                None
            },
        }
    }
}

impl Edge {
    /// The edge as it goes over the wire.
    pub fn to_bytes(&self) -> (bytes: Vec<u8>)
        ensures
            bytes@ == edge_wire(*self),
    {
        let mut bytes: Vec<u8> = Vec::new();
        self.peer0.encode_into(&mut bytes);
        self.peer1.encode_into(&mut bytes);
        write_u64_le(&mut bytes, self.nonce);
        write_signature(&self.signature0, &mut bytes);
        write_signature(&self.signature1, &mut bytes);
        match self.removal_info {
            Some((by_peer0, signature)) => {
                bytes.push(1);
                bytes.push(
                    if by_peer0 {
                        1
                    } else {
                        0
                    },
                );
                write_signature(&signature, &mut bytes);
            },
            None => {
                bytes.push(0);
            },
        }
        assert(bytes@ =~= edge_wire(*self));
        bytes
    }

    /// The edge that `bytes` are on the wire, if they are one. Whether
    /// the edge is authentic is another matter: see `verify`.
    pub fn from_bytes(bytes: &[u8]) -> (edge: Option<Edge>)
        ensures
            match edge {
                Some(edge) => edge_wire(edge) == bytes@,
                None => forall|edge: Edge| edge_wire(edge) != bytes@,
            },
    {
        proof {
            lemma_auto_spec_u64_to_from_le_bytes();
            assert forall|edge: Edge| edge_wire(edge) == bytes@ implies {
                &&& bytes@.len() == ADDED_WIRE_LEN || bytes@.len() == REMOVED_WIRE_LEN
                &&& bytes@[0] == ED25519_TAG
                &&& bytes@[33] == ED25519_TAG
                &&& bytes@[74] == ED25519_TAG
                &&& bytes@[139] == ED25519_TAG
                &&& bytes@.len() == ADDED_WIRE_LEN ==> bytes@[204] == 0
                &&& bytes@.len() == REMOVED_WIRE_LEN ==> bytes@[204] == 1 && (bytes@[205] == 0
                    || bytes@[205] == 1) && bytes@[206] == ED25519_TAG
            } by {
                lemma_edge_wire_shape(edge);
            }
        }
        let len = bytes.len();
        if len != ADDED_WIRE_LEN && len != REMOVED_WIRE_LEN {
            return None;
        }
        let key0 = match read_tagged::<32>(bytes, 0) {
            Some(data) => data,
            None => {
                return None;
            },
        };
        let key1 = match read_tagged::<32>(bytes, 33) {
            Some(data) => data,
            None => {
                return None;
            },
        };
        let nonce = u64_from_le_bytes(slice_subrange(bytes, 66, 74));
        let signature0 = match read_tagged::<64>(bytes, 74) {
            Some(data) => data,
            None => {
                return None;
            },
        };
        let signature1 = match read_tagged::<64>(bytes, 139) {
            Some(data) => data,
            None => {
                return None;
            },
        };
        let removal_info = if len == ADDED_WIRE_LEN {
            if bytes[204] != 0 {
                return None;
            }
            None
        } else {
            if bytes[204] != 1 || bytes[205] > 1 {
                return None;
            }
            match read_tagged::<64>(bytes, 206) {
                Some(data) => Some((bytes[205] == 1, Signature { data })),
                None => {
                    return None;
                },
            }
        };
        let edge = Edge {
            peer0: PeerId(PublicKey { data: key0 }),
            peer1: PeerId(PublicKey { data: key1 }),
            nonce,
            signature0: Signature { data: signature0 },
            signature1: Signature { data: signature1 },
            removal_info,
        };
        proof {
            assert(spec_u64_to_le_bytes(nonce) == bytes@.subrange(66, 74));
            assert(edge.peer0.encoding() =~= bytes@.subrange(0, 33));
            assert(edge.peer1.encoding() =~= bytes@.subrange(33, 66));
            assert(signature_wire(edge.signature0) =~= bytes@.subrange(74, 139));
            assert(signature_wire(edge.signature1) =~= bytes@.subrange(139, 204));
            assert(removal_wire(removal_info) =~= bytes@.subrange(204, len as int));
            assert(edge_wire(edge) =~= bytes@);
        }
        Some(edge)
    }
}

/// What goes over the wire comes back: an edge is read from its own bytes,
/// and from no others.
pub proof fn lemma_edge_round_trip(edge: Edge, read: Option<Edge>)
    requires
        match read {
            Some(read) => edge_wire(read) == edge_wire(edge),
            None => forall|any: Edge| edge_wire(any) != edge_wire(edge),
        },
    ensures
        read == Some(edge),
{
    match read {
        Some(read) => {
            lemma_edge_wire_injective(read, edge);
        },
        None => {
            assert(edge_wire(edge) == edge_wire(edge));
        },
    }
}

} // verus!
