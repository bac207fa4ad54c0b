//! Peers, routing targets and the announcements peers exchange.

use crate::byte_array::{
    array_eq, lemma_lex_lt_asymmetric, lemma_lex_lt_irreflexive, lemma_lex_lt_total,
    lemma_lex_lt_transitive,
};
use crate::crypto::{PublicKey, Signature};
use crate::hash::CryptoHash;
use vstd::prelude::*;

verus! {

/// A peer of the overlay, identified by its public key.
#[derive(Clone, Copy, Debug, Hash)]
pub struct PeerId(pub PublicKey);

impl PartialEq for PeerId {
    fn eq(&self, other: &Self) -> (same: bool) {
        array_eq(&self.0.data, &other.0.data)
    }
}

impl Eq for PeerId {

}

impl vstd::std_specs::cmp::PartialEqSpecImpl for PeerId {
    open spec fn obeys_eq_spec() -> bool {
        true
    }

    open spec fn eq_spec(&self, other: &Self) -> bool {
        *self == *other
    }
}

impl PeerId {
    /// The peer that owns `key`.
    pub fn new(key: PublicKey) -> (peer: PeerId)
        ensures
            peer == PeerId(key),
    {
        PeerId(key)
    }

    /// The key that identifies this peer.
    pub fn public_key(&self) -> (key: PublicKey)
        ensures
            key == self.0,
    {
        self.0
    }

    /// The canonical encoding of the peer: that of its key.
    pub open spec fn encoding(&self) -> Seq<u8> {
        self.0.encoding()
    }

    /// The order of peers: byte-lexicographic over the canonical encoding.
    pub open spec fn precedes(&self, other: &PeerId) -> bool {
        self.0.precedes(&other.0)
    }

    /// Appends the canonical encoding to `buffer`.
    pub fn encode_into(&self, buffer: &mut Vec<u8>)
        ensures
            final(buffer)@ == old(buffer)@ + self.encoding(),
    {
        self.0.encode_into(buffer)
    }

    /// Whether this peer comes before `other`.
    pub fn lt(&self, other: &PeerId) -> (less: bool)
        ensures
            less == self.precedes(other),
    {
        self.0.lt(&other.0)
    }
}

/// Two peers are the same exactly when their encodings are.
pub proof fn lemma_peer_encoding_injective(a: PeerId, b: PeerId)
    ensures
        (a == b) == (a.encoding() == b.encoding()),
{
    if a.encoding() == b.encoding() {
        assert forall|i: int| 0 <= i < 32 implies a.0.data[i] == b.0.data[i] by {
            assert(a.encoding()[i + 1] == a.0.data@[i]);
            assert(b.encoding()[i + 1] == b.0.data@[i]);
        }
        assert(a.0.data =~= b.0.data);
    }
}

/// The order of peers is a strict total order.
pub proof fn lemma_peer_order(a: PeerId, b: PeerId, c: PeerId)
    ensures
        !a.precedes(&a),
        a.precedes(&b) ==> !b.precedes(&a),
        a.precedes(&b) && b.precedes(&c) ==> a.precedes(&c),
        a != b ==> a.precedes(&b) || b.precedes(&a),
{
    lemma_lex_lt_irreflexive(a.encoding());
    if a.precedes(&b) {
        lemma_lex_lt_asymmetric(a.encoding(), b.encoding());
        if b.precedes(&c) {
            lemma_lex_lt_transitive(a.encoding(), b.encoding(), c.encoding());
        }
    }
    if a != b {
        lemma_peer_encoding_injective(a, b);
        lemma_lex_lt_total(a.encoding(), b.encoding());
    }
}

/// Where a routed message is headed: a peer, or back along the path of the
/// message with the given hash.
#[derive(Clone, Copy, Debug)]
pub enum PeerIdOrHash {
    PeerId(PeerId),
    Hash(CryptoHash),
}

/// An account's announcement of the peer that serves it.
#[derive(Clone, Debug)]
pub struct AnnounceAccount {
    /// The account being announced.
    pub account_id: String,
    /// The peer that serves the account.
    pub peer_id: PeerId,
    /// The epoch the announcement is made for.
    pub epoch_id: CryptoHash,
    /// The account's attestation; it is checked before the announcement
    /// reaches this library.
    pub signature: Signature,
}

/// What an announcement says.
pub struct AnnounceAccountView {
    pub account_id: Seq<char>,
    pub peer_id: PeerId,
    pub epoch_id: CryptoHash,
    pub signature: Signature,
}

impl View for AnnounceAccount {
    type V = AnnounceAccountView;

    open spec fn view(&self) -> AnnounceAccountView {
        AnnounceAccountView {
            account_id: self.account_id@,
            peer_id: self.peer_id,
            epoch_id: self.epoch_id,
            signature: self.signature,
        }
    }
}

impl AnnounceAccount {
    /// Whether two announcements say the same.
    pub fn same_as(&self, other: &AnnounceAccount) -> (same: bool)
        ensures
            same == (self@ == other@),
    {
        self.account_id == other.account_id && self.peer_id == other.peer_id && self.epoch_id
            == other.epoch_id && self.signature == other.signature
    }

    /// A copy of the announcement.
    pub fn duplicate(&self) -> (copy: AnnounceAccount)
        ensures
            copy@ == self@,
    {
        AnnounceAccount {
            account_id: self.account_id.clone(),
            peer_id: self.peer_id,
            epoch_id: self.epoch_id,
            signature: self.signature,
        }
    }
}

/// A ping, kept for tests of the overlay.
#[derive(Clone, Copy, Debug)]
pub struct Ping {
    pub nonce: usize,
    pub source: PeerId,
}

/// A pong, kept for tests of the overlay.
#[derive(Clone, Copy, Debug)]
pub struct Pong {
    pub nonce: usize,
    pub source: PeerId,
}

} // verus!
