//! Signed edges between two peers.
//!
//! An edge is versioned by its nonce. An odd nonce says that the two peers
//! are connected and carries both their signatures; the even nonce that
//! follows says that one of them has cut the connection and carries that
//! peer's signature as well.

use crate::crypto::{ed25519_accepts, ed25519_public, ed25519_signature, SecretKey, Signature};
use crate::hash::{hash, sha256, CryptoHash};
use crate::types::{lemma_peer_order, PeerId};
use vstd::bytes::spec_u64_to_le_bytes;
use vstd::prelude::*;

verus! {

/// Trusted: `byteorder::WriteBytesExt::write_u64` with the little-endian
/// byte order, on a vector. It appends the eight bytes of `value`, least
/// significant first; writing to a vector does not fail.
#[verifier::external_body]
pub(crate) fn write_u64_le(buffer: &mut Vec<u8>, value: u64)
    ensures
        final(buffer)@ == old(buffer)@ + spec_u64_to_le_bytes(value),
{
    byteorder::WriteBytesExt::write_u64::<bytes::LittleEndian>(buffer, value).unwrap();
}

/// The two peers of an edge in canonical order: the smaller one first.
pub open spec fn canonical_pair(peer0: PeerId, peer1: PeerId) -> (PeerId, PeerId) {
    if peer0.precedes(&peer1) {
        (peer0, peer1)
    } else {
        (peer1, peer0)
    }
}

/// The bytes that are hashed for an edge: both peers' encodings and the
/// nonce, least significant byte first.
pub open spec fn edge_bytes(peer0: PeerId, peer1: PeerId, nonce: u64) -> Seq<u8> {
    peer0.encoding() + peer1.encoding() + spec_u64_to_le_bytes(nonce)
}

/// The hash that the peers of an edge sign for the given nonce.
pub open spec fn edge_hash(peer0: PeerId, peer1: PeerId, nonce: u64) -> Seq<u8> {
    sha256(edge_bytes(peer0, peer1, nonce))
}

/// Whether `peer` has signed the edge between `peer0` and `peer1` at `nonce`
/// with `signature`.
pub open spec fn signed_by(
    peer: PeerId,
    peer0: PeerId,
    peer1: PeerId,
    nonce: u64,
    signature: Signature,
) -> bool {
    ed25519_accepts(peer.0@, edge_hash(peer0, peer1, nonce), signature@)
}

/// The signature that `secret_key` gives the edge between `peer0` and `peer1`
/// at `nonce`.
pub open spec fn edge_signature(secret_key: SecretKey, peer0: PeerId, peer1: PeerId, nonce: u64) -> Seq<
    u8,
> {
    ed25519_signature(secret_key@, edge_hash(peer0, peer1, nonce))
}

/// A peer's proposal for a new edge: the nonce and the peer's signature of
/// the edge at that nonce.
#[derive(Clone, Copy, Debug)]
pub struct EdgeInfo {
    pub nonce: u64,
    pub signature: Signature,
}

impl PartialEq for EdgeInfo {
    fn eq(&self, other: &Self) -> (same: bool) {
        self.nonce == other.nonce && self.signature == other.signature
    }
}

impl Eq for EdgeInfo {

}

impl vstd::std_specs::cmp::PartialEqSpecImpl for EdgeInfo {
    open spec fn obeys_eq_spec() -> bool {
        true
    }

    open spec fn eq_spec(&self, other: &Self) -> bool {
        *self == *other
    }
}

impl EdgeInfo {
    /// Signs the edge between the two peers at `nonce` with `secret_key`.
    /// Where the key is that of one of the peers, that peer has signed the
    /// edge.
    pub fn new(peer0: PeerId, peer1: PeerId, nonce: u64, secret_key: &SecretKey) -> (info: EdgeInfo)
        ensures
            info.nonce == nonce,
            info.signature@ == edge_signature(
                *secret_key,
                canonical_pair(peer0, peer1).0,
                canonical_pair(peer0, peer1).1,
                nonce,
            ),
            forall|peer: PeerId|
                peer.0@ == ed25519_public(secret_key@) ==> #[trigger] signed_by(
                    peer,
                    canonical_pair(peer0, peer1).0,
                    canonical_pair(peer0, peer1).1,
                    nonce,
                    info.signature,
                ),
    {
        let (peer0, peer1) = Edge::key(peer0, peer1);
        let data = Edge::build_hash(&peer0, &peer1, nonce);
        let signature = secret_key.sign(data.0.as_slice());
        EdgeInfo { nonce, signature }
    }
}

/// Whether an edge adds or removes a connection.
#[derive(Clone, Copy, Debug, PartialEq, Eq, Structural)]
pub enum EdgeType {
    Added,
    Removed,
}

/// The kind of edge that a nonce stands for: odd adds, even removes.
pub open spec fn edge_type_of(nonce: u64) -> EdgeType {
    if nonce % 2 == 1 {
        EdgeType::Added
    } else {
        EdgeType::Removed
    }
}

/// An edge between two peers with the signatures that vouch for it.
#[derive(Clone, Copy, Debug)]
pub struct Edge {
    /// The smaller peer of the edge.
    pub peer0: PeerId,
    /// The larger peer of the edge.
    pub peer1: PeerId,
    /// The version of the edge; its parity gives the kind.
    pub nonce: u64,
    /// Signature of `peer0` for the odd nonce that added the edge.
    pub signature0: Signature,
    /// Signature of `peer1` for the odd nonce that added the edge.
    pub signature1: Signature,
    /// For a removed edge: whether `peer0` (true) or `peer1` (false) removed
    /// it, and that peer's signature for the even nonce.
    pub removal_info: Option<(bool, Signature)>,
}

impl PartialEq for Edge {
    fn eq(&self, other: &Self) -> (same: bool) {
        let same_removal = match (self.removal_info, other.removal_info) {
            (Some((by_peer0, signature)), Some((other_by_peer0, other_signature))) => by_peer0
                == other_by_peer0 && signature == other_signature,
            (None, None) => true,
            _ => false,
        };
        self.peer0 == other.peer0 && self.peer1 == other.peer1 && self.nonce == other.nonce
            && self.signature0 == other.signature0 && self.signature1 == other.signature1
            && same_removal
    }
}

impl Eq for Edge {

}

impl vstd::std_specs::cmp::PartialEqSpecImpl for Edge {
    open spec fn obeys_eq_spec() -> bool {
        true
    }

    open spec fn eq_spec(&self, other: &Self) -> bool {
        *self == *other
    }
}

impl Edge {
    /// Whether the edge is authentic: its peers are in canonical order and
    /// the signatures that its kind asks for are those of its peers.
    pub open spec fn is_valid(&self) -> bool {
        &&& self.peer0.precedes(&self.peer1)
        &&& if self.nonce % 2 == 1 {
            &&& self.removal_info is None
            &&& signed_by(self.peer0, self.peer0, self.peer1, self.nonce, self.signature0)
            &&& signed_by(self.peer1, self.peer0, self.peer1, self.nonce, self.signature1)
        } else {
            &&& self.nonce > 0
            &&& signed_by(
                self.peer0,
                self.peer0,
                self.peer1,
                (self.nonce - 1) as u64,
                self.signature0,
            )
            &&& signed_by(
                self.peer1,
                self.peer0,
                self.peer1,
                (self.nonce - 1) as u64,
                self.signature1,
            )
            &&& self.removal_info matches Some((by_peer0, signature)) && signed_by(
                if by_peer0 {
                    self.peer0
                } else {
                    self.peer1
                },
                self.peer0,
                self.peer1,
                self.nonce,
                signature,
            )
        }
    }

    /// The addition edge of two peers with their signatures, the peers put in
    /// canonical order.
    pub open spec fn addition(
        peer0: PeerId,
        peer1: PeerId,
        nonce: u64,
        signature0: Signature,
        signature1: Signature,
    ) -> Edge {
        if peer0.precedes(&peer1) {
            Edge { peer0, peer1, nonce, signature0, signature1, removal_info: None }
        } else {
            Edge {
                peer0: peer1,
                peer1: peer0,
                nonce,
                signature0: signature1,
                signature1: signature0,
                removal_info: None,
            }
        }
    }

    /// Creates an addition edge. `signature0` goes with `peer0` and
    /// `signature1` with `peer1`, whichever of the two comes first.
    pub fn new(
        peer0: PeerId,
        peer1: PeerId,
        nonce: u64,
        signature0: Signature,
        signature1: Signature,
    ) -> (edge: Edge)
        ensures
            edge == Edge::addition(peer0, peer1, nonce, signature0, signature1),
    {
        if peer0.lt(&peer1) {
            Edge { peer0, peer1, nonce, signature0, signature1, removal_info: None }
        } else {
            Edge {
                peer0: peer1,
                peer1: peer0,
                nonce,
                signature0: signature1,
                signature1: signature0,
                removal_info: None,
            }
        }
    }

    /// Completes an addition edge: signs it as `peer0` with `secret_key` and
    /// joins the signature `signature1` that `peer1` has sent.
    ///
    /// The edge is authentic where the nonce is odd, the peers differ,
    /// `secret_key` is the key of `peer0` and `signature1` is that of `peer1`.
    pub fn build_with_secret_key(
        peer0: PeerId,
        peer1: PeerId,
        nonce: u64,
        secret_key: &SecretKey,
        signature1: Signature,
    ) -> (edge: Edge)
        ensures
            exists|signature0: Signature|
                {
                    &&& edge == Edge::addition(peer0, peer1, nonce, signature0, signature1)
                    &&& signature0@ == edge_signature(
                        *secret_key,
                        canonical_pair(peer0, peer1).0,
                        canonical_pair(peer0, peer1).1,
                        nonce,
                    )
                },
            nonce % 2 == 1 && peer0 != peer1 && peer0.0@ == ed25519_public(secret_key@) && signed_by(
                peer1,
                canonical_pair(peer0, peer1).0,
                canonical_pair(peer0, peer1).1,
                nonce,
                signature1,
            ) ==> edge.is_valid(),
    {
        let hash = if peer0.lt(&peer1) {
            Edge::build_hash(&peer0, &peer1, nonce)
        } else {
            Edge::build_hash(&peer1, &peer0, nonce)
        };
        let signature0 = secret_key.sign(hash.0.as_slice());
        proof {
            lemma_peer_order(peer0, peer1, peer0);
        }
        Edge::new(peer0, peer1, nonce, signature0, signature1)
    }

    /// The removal of this addition edge by `me`, signed with `sk`. The nonce
    /// grows by one and the signatures of the addition stay.
    ///
    /// The removal is authentic where this edge is, `me` is one of its peers
    /// and `sk` is the key of `me`.
    pub fn remove_edge(&self, me: PeerId, sk: &SecretKey) -> (edge: Edge)
        requires
            self.nonce % 2 == 1,
            self.nonce < u64::MAX,
        ensures
            edge.peer0 == self.peer0,
            edge.peer1 == self.peer1,
            edge.nonce == self.nonce + 1,
            edge.signature0 == self.signature0,
            edge.signature1 == self.signature1,
            edge.removal_info matches Some((by_peer0, signature)) && by_peer0 == (self.peer0 == me)
                && signature@ == edge_signature(*sk, self.peer0, self.peer1, edge.nonce),
            self.is_valid() && (me == self.peer0 || me == self.peer1) && me.0@ == ed25519_public(
                sk@,
            ) ==> edge.is_valid(),
    {
        let nonce = self.nonce + 1;
        let by_peer0 = self.peer0 == me;
        let hash = Edge::build_hash(&self.peer0, &self.peer1, nonce);
        let signature = sk.sign(hash.0.as_slice());
        Edge {
            peer0: self.peer0,
            peer1: self.peer1,
            nonce,
            signature0: self.signature0,
            signature1: self.signature1,
            removal_info: Some((by_peer0, signature)),
        }
    }

    /// The hash that is signed for the edge between `peer0` and `peer1`, in
    /// this order, at `nonce`.
    pub fn build_hash(peer0: &PeerId, peer1: &PeerId, nonce: u64) -> (digest: CryptoHash)
        ensures
            digest@ == edge_hash(*peer0, *peer1, nonce),
    {
        let mut buffer: Vec<u8> = Vec::new();
        peer0.encode_into(&mut buffer);
        peer1.encode_into(&mut buffer);
        write_u64_le(&mut buffer, nonce);
        assert(buffer@ =~= edge_bytes(*peer0, *peer1, nonce));
        hash(buffer.as_slice())
    }

    fn hash(&self) -> (digest: CryptoHash)
        ensures
            digest@ == edge_hash(self.peer0, self.peer1, self.nonce),
    {
        Edge::build_hash(&self.peer0, &self.peer1, self.nonce)
    }

    fn prev_hash(&self) -> (digest: CryptoHash)
        requires
            self.nonce > 0,
        ensures
            digest@ == edge_hash(self.peer0, self.peer1, (self.nonce - 1) as u64),
    {
        Edge::build_hash(&self.peer0, &self.peer1, self.nonce - 1)
    }

    /// Checks that the edge is authentic.
    pub fn verify(&self) -> (valid: bool)
        ensures
            valid == self.is_valid(),
    {
        if !self.peer0.lt(&self.peer1) {
            return false;
        }
        match self.edge_type() {
            EdgeType::Added => {
                let data = self.hash();
                self.removal_info.is_none() && self.signature0.verify(
                    data.0.as_slice(),
                    &self.peer0.public_key(),
                ) && self.signature1.verify(data.0.as_slice(), &self.peer1.public_key())
            },
            EdgeType::Removed => {
                if self.nonce == 0 {
                    return false;
                }
                let add_hash = self.prev_hash();
                if !self.signature0.verify(add_hash.0.as_slice(), &self.peer0.public_key())
                    || !self.signature1.verify(add_hash.0.as_slice(), &self.peer1.public_key()) {
                    return false;
                }
                match self.removal_info {
                    Some((by_peer0, signature)) => {
                        let peer = if by_peer0 {
                            self.peer0
                        } else {
                            self.peer1
                        };
                        let del_hash = self.hash();
                        signature.verify(del_hash.0.as_slice(), &peer.public_key())
                    },
                    None => false,
                }
            },
        }
    }

    /// Puts two peers in canonical order: the smaller one first.
    pub fn key(peer0: PeerId, peer1: PeerId) -> (pair: (PeerId, PeerId))
        ensures
            pair == canonical_pair(peer0, peer1),
    {
        if peer0.lt(&peer1) {
            (peer0, peer1)
        } else {
            (peer1, peer0)
        }
    }

    /// Checks a proposal that `peer1` has sent to `peer0`: whether its
    /// signature is that of `peer1` for the edge between the two at the
    /// proposed nonce.
    pub fn partial_verify(peer0: PeerId, peer1: PeerId, edge_info: &EdgeInfo) -> (valid: bool)
        ensures
            valid == signed_by(
                peer1,
                canonical_pair(peer0, peer1).0,
                canonical_pair(peer0, peer1).1,
                edge_info.nonce,
                edge_info.signature,
            ),
    {
        let pk = peer1.public_key();
        let (peer0, peer1) = Edge::key(peer0, peer1);
        let data = Edge::build_hash(&peer0, &peer1, edge_info.nonce);
        edge_info.signature.verify(data.0.as_slice(), &pk)
    }

    /// The two peers of the edge.
    pub fn get_pair(&self) -> (pair: (PeerId, PeerId))
        ensures
            pair == (self.peer0, self.peer1),
    {
        (self.peer0, self.peer1)
    }

    /// The kind of the edge: an odd nonce adds, an even one removes.
    pub fn edge_type(&self) -> (kind: EdgeType)
        ensures
            kind == edge_type_of(self.nonce),
    {
        if self.nonce % 2 == 1 {
            EdgeType::Added
        } else {
            EdgeType::Removed
        }
    }

    /// The nonce of the next addition of this edge: the next odd number
    /// above the current nonce.
    pub fn next_nonce(&self) -> (next: u64)
        requires
            self.nonce < u64::MAX,
        ensures
            next > self.nonce,
            next % 2 == 1,
            next == if self.nonce % 2 == 1 {
                self.nonce + 2
            } else {
                self.nonce + 1
            },
    {
        if self.nonce % 2 == 1 {
            self.nonce + 2
        } else {
            self.nonce + 1
        }
    }

    /// Whether `peer_id` is one of the two peers of the edge.
    pub fn contains_peer(&self, peer_id: &PeerId) -> (found: bool)
        ensures
            found == (self.peer0 == *peer_id || self.peer1 == *peer_id),
    {
        self.peer0 == *peer_id || self.peer1 == *peer_id
    }

    /// The peer at the other end of the edge from `me`, if `me` is at one.
    pub fn other(&self, me: &PeerId) -> (peer: Option<PeerId>)
        ensures
            peer == if self.peer0 == *me {
                Some(self.peer1)
            } else if self.peer1 == *me {
                Some(self.peer0)
            } else {
                None::<PeerId>
            },
    {
        if self.peer0 == *me {
            Some(self.peer1)
        } else if self.peer1 == *me {
            Some(self.peer0)
        } else {
            None
        }
    }
}

} // verus!
