//! The graph of peers and the first hops of its shortest paths.

use crate::forwarding::ForwardingMap;
use crate::paths::{
    first_hops, forwarding, is_distance, is_first_hop, lemma_distance_unique,
    lemma_first_hop_before, lemma_first_hop_extend, lemma_first_hop_neighbor,
    lemma_walk_extend, lemma_walk_one, walk,
};
use crate::types::PeerId;
use vstd::prelude::*;

verus! {

/// The current view of the network: peers and the connections between
/// them, seen from the peer `source`.
///
/// A connection has no direction: whenever the graph holds the pair
/// `(u, v)` it also holds `(v, u)`.
#[derive(Debug)]
pub struct Graph {
    /// The peer whose routes are computed.
    pub source: PeerId,
    /// The peers that an edge has named, each once.
    peers: Vec<PeerId>,
    /// For each peer, by its position in `peers`, the positions of its
    /// neighbors, each once.
    adjacency: Vec<Vec<usize>>,
}

impl Graph {
    /// The peer whose routes are computed.
    pub closed spec fn spec_source(&self) -> PeerId {
        self.source
    }

    /// The peer whose routes are computed.
    #[verifier::when_used_as_spec(spec_source)]
    pub fn source(&self) -> (source: PeerId)
        ensures
            source == self.spec_source(),
    {
        self.source
    }

    /// Whether the peer at position `i` holds the peer at position `j` among
    /// its neighbors.
    pub closed spec fn links(&self, i: int, j: int) -> bool {
        &&& 0 <= i < self.adjacency.len()
        &&& 0 <= j < self.adjacency.len()
        &&& self.adjacency[i]@.contains(j as usize)
    }

    /// The representation holds together: every peer has its list of
    /// neighbors, no peer and no neighbor occurs twice, and neighbors are
    /// positions of peers.
    pub closed spec fn shape(&self) -> bool {
        &&& self.peers.len() == self.adjacency.len()
        &&& forall|i: int, j: int|
            0 <= i < j < self.peers.len() ==> self.peers[i] != self.peers[j]
        &&& forall|i: int, k: int|
            0 <= i < self.adjacency.len() && 0 <= k < self.adjacency[i].len() ==> (
            #[trigger] self.adjacency[i][k]) < self.peers.len()
        &&& forall|i: int|
            0 <= i < self.adjacency.len() ==> (#[trigger] self.adjacency[i])@.no_duplicates()
    }

    /// The graph is well formed: its representation holds together and every
    /// connection is held in both directions.
    pub closed spec fn wf(&self) -> bool {
        &&& self.shape()
        &&& forall|i: int, j: int| self.links(i, j) ==> self.links(j, i)
    }

    /// The connections of the graph, each as a pair in both directions.
    pub closed spec fn view(&self) -> Set<(PeerId, PeerId)> {
        Set::new(
            |pair: (PeerId, PeerId)|
                exists|i: int, j: int|
                    self.links(i, j) && self.peers[i] == pair.0 && self.peers[j] == pair.1,
        )
    }

    /// The connections of a well-formed graph are symmetric.
    pub proof fn lemma_symmetric(&self, u: PeerId, v: PeerId)
        requires
            self.wf(),
        ensures
            self@.contains((u, v)) == self@.contains((v, u)),
    {
        if self@.contains((u, v)) {
            let (i, j) = choose|i: int, j: int|
                self.links(i, j) && self.peers[i] == u && self.peers[j] == v;
            assert(self.links(j, i));
        }
        if self@.contains((v, u)) {
            let (i, j) = choose|i: int, j: int|
                self.links(i, j) && self.peers[i] == v && self.peers[j] == u;
            assert(self.links(j, i));
        }
    }

    /// Between peers at known positions, the view holds what the lists hold.
    proof fn lemma_view_links(&self, i: int, j: int)
        requires
            self.shape(),
            0 <= i < self.peers.len(),
            0 <= j < self.peers.len(),
        ensures
            self@.contains((self.peers[i], self.peers[j])) == self.links(i, j),
    {
        if self@.contains((self.peers[i], self.peers[j])) {
            let (a, b) = choose|a: int, b: int|
                self.links(a, b) && self.peers[a] == self.peers[i] && self.peers[b]
                    == self.peers[j];
            assert(a == i && b == j);
        }
    }

    /// A graph without connections.
    pub fn new(source: PeerId) -> (graph: Graph)
        ensures
            graph.wf(),
            graph.source() == source,
            graph@ == Set::<(PeerId, PeerId)>::empty(),
    {
        let graph = Graph { source, peers: Vec::new(), adjacency: Vec::new() };
        assert(graph@ =~= Set::<(PeerId, PeerId)>::empty());
        graph
    }

    /// The position of `peer` among the peers of the graph.
    fn position(&self, peer: &PeerId) -> (found: Option<usize>)
        requires
            self.shape(),
        ensures
            match found {
                Some(i) => i < self.peers.len() && self.peers[i as int] == *peer,
                None => forall|i: int| 0 <= i < self.peers.len() ==> self.peers[i] != *peer,
            },
    {
        let mut i: usize = 0;
        while i < self.peers.len()
            invariant
                i <= self.peers.len(),
                forall|k: int| 0 <= k < i ==> self.peers[k] != *peer,
            decreases self.peers.len() - i,
        {
            if self.peers[i] == *peer {
                return Some(i);
            }
            i += 1;
        }
        None
    }

    /// The position of `peer`, which joins the peers of the graph if it is
    /// not among them.
    fn intern(&mut self, peer: PeerId) -> (index: usize)
        requires
            old(self).shape(),
        ensures
            final(self).shape(),
            final(self).source() == old(self).source(),
            index < final(self).peers.len(),
            final(self).peers[index as int] == peer,
            final(self).peers.len() >= old(self).peers.len(),
            forall|i: int|
                0 <= i < old(self).peers.len() ==> final(self).peers[i] == old(self).peers[i],
            forall|i: int, j: int| final(self).links(i, j) == old(self).links(i, j),
    {
        match self.position(&peer) {
            Some(index) => index,
            None => {
                let index = self.peers.len();
                self.peers.push(peer);
                self.adjacency.push(Vec::new());
                assert forall|i: int, j: int| self.links(i, j) == old(self).links(i, j) by {
                    if 0 <= i < old(self).adjacency.len() {
                        assert(self.adjacency[i] == old(self).adjacency[i]);
                        if old(self).adjacency[i]@.contains(j as usize) {
                            let k = choose|k: int|
                                0 <= k < old(self).adjacency[i]@.len() && old(self).adjacency[i]@[k]
                                    == j as usize;
                            assert(old(self).adjacency[i][k] < old(self).peers.len());
                        }
                    }
                }
                index
            },
        }
    }

    /// Whether `peer0` and `peer1` are connected.
    pub fn contains_edge(&self, peer0: &PeerId, peer1: &PeerId) -> (found: bool)
        requires
            self.wf(),
        ensures
            found == self@.contains((*peer0, *peer1)),
    {
        match (self.position(peer0), self.position(peer1)) {
            (Some(i), Some(j)) => {
                let found = index_in(&self.adjacency[i], j);
                proof {
                    self.lemma_view_links(i as int, j as int);
                }
                found.is_some()
            },
            _ => {
                assert(!self@.contains((*peer0, *peer1)));
                false
            },
        }
    }

    /// Puts the peer at position `j` among the neighbors of the one at `i`.
    fn add_directed_edge(&mut self, i: usize, j: usize)
        requires
            old(self).shape(),
            i < old(self).peers.len(),
            j < old(self).peers.len(),
        ensures
            final(self).shape(),
            final(self).source() == old(self).source(),
            final(self).peers == old(self).peers,
            forall|a: int, b: int|
                final(self).links(a, b) == (old(self).links(a, b) || (a == i && b == j)),
    {
        if index_in(&self.adjacency[i], j).is_none() {
            self.adjacency[i].push(j);
            assert forall|a: int, b: int|
                self.links(a, b) == (old(self).links(a, b) || (a == i && b == j)) by {
                if 0 <= a < self.adjacency.len() && 0 <= b < self.adjacency.len() {
                    if a == i {
                        let before = old(self).adjacency[i as int]@;
                        assert(self.adjacency[i as int]@ == before.push(j));
                        if before.contains(b as usize) {
                            let k = choose|k: int| 0 <= k < before.len() && before[k] == b as usize;
                            assert(before.push(j)[k] == b as usize);
                        }
                        if b == j {
                            assert(before.push(j)[before.len() as int] == j);
                        }
                    } else {
                        assert(self.adjacency[a] == old(self).adjacency[a]);
                    }
                }
            }
            assert forall|a: int, k: int|
                0 <= a < self.adjacency.len() && 0 <= k < self.adjacency[a].len() implies (
            #[trigger] self.adjacency[a][k]) < self.peers.len() by {
                if a != i {
                    assert(self.adjacency[a] == old(self).adjacency[a]);
                } else if k < old(self).adjacency[a].len() {
                    assert(self.adjacency[a][k] == old(self).adjacency[a][k]);
                }
            }
            assert forall|a: int| 0 <= a < self.adjacency.len() implies (
            #[trigger] self.adjacency[a])@.no_duplicates() by {
                if a != i {
                    assert(self.adjacency[a] == old(self).adjacency[a]);
                }
            }
        }
    }

    /// Takes the peer at position `j` from the neighbors of the one at `i`.
    fn remove_directed_edge(&mut self, i: usize, j: usize)
        requires
            old(self).shape(),
            i < old(self).peers.len(),
            j < old(self).peers.len(),
        ensures
            final(self).shape(),
            final(self).source() == old(self).source(),
            final(self).peers == old(self).peers,
            forall|a: int, b: int|
                final(self).links(a, b) == (old(self).links(a, b) && !(a == i && b == j)),
    {
        match index_in(&self.adjacency[i], j) {
            Some(at) => {
                self.adjacency[i].remove(at);
                proof {
                    let before = old(self).adjacency[i as int]@;
                    let after = self.adjacency[i as int]@;
                    assert(after == before.remove(at as int));
                    assert forall|a: int, b: int|
                        self.links(a, b) == (old(self).links(a, b) && !(a == i && b == j)) by {
                        if 0 <= a < self.adjacency.len() && 0 <= b < self.adjacency.len() {
                            if a == i {
                                if after.contains(b as usize) {
                                    let k = choose|k: int|
                                        0 <= k < after.len() && after[k] == b as usize;
                                    if k < at {
                                        assert(before[k] == b as usize);
                                    } else {
                                        assert(before[k + 1] == b as usize);
                                    }
                                }
                                if before.contains(b as usize) && b != j {
                                    let k = choose|k: int|
                                        0 <= k < before.len() && before[k] == b as usize;
                                    if k < at {
                                        assert(after[k] == b as usize);
                                    } else {
                                        assert(after[k - 1] == b as usize);
                                    }
                                }
                            } else {
                                assert(self.adjacency[a] == old(self).adjacency[a]);
                            }
                        }
                    }
                    assert forall|a: int, k: int|
                        0 <= a < self.adjacency.len() && 0 <= k < self.adjacency[a].len() implies (
                    #[trigger] self.adjacency[a][k]) < self.peers.len() by {
                        if a != i {
                            assert(self.adjacency[a] == old(self).adjacency[a]);
                        } else if k < at {
                            assert(self.adjacency[a][k] == old(self).adjacency[a][k]);
                        } else {
                            assert(self.adjacency[a][k] == old(self).adjacency[a][k + 1]);
                        }
                    }
                    assert forall|a: int| 0 <= a < self.adjacency.len() implies (
                    #[trigger] self.adjacency[a])@.no_duplicates() by {
                        if a != i {
                            assert(self.adjacency[a] == old(self).adjacency[a]);
                        }
                    }
                }
            },
            None => {},
        }
    }

    /// Connects `peer0` and `peer1`. Nothing changes if they are connected.
    pub fn add_edge(&mut self, peer0: PeerId, peer1: PeerId)
        requires
            old(self).wf(),
        ensures
            final(self).wf(),
            final(self).source() == old(self).source(),
            final(self)@ == old(self)@.insert((peer0, peer1)).insert((peer1, peer0)),
    {
        let i = self.intern(peer0);
        let j = self.intern(peer1);
        let ghost interned = *self;
        self.add_directed_edge(i, j);
        self.add_directed_edge(j, i);
        proof {
            assert forall|pair: (PeerId, PeerId)|
                self@.contains(pair) == old(self)@.insert((peer0, peer1)).insert(
                    (peer1, peer0),
                ).contains(pair) by {
                if self@.contains(pair) {
                    let (a, b) = choose|a: int, b: int|
                        self.links(a, b) && self.peers[a] == pair.0 && self.peers[b] == pair.1;
                    if old(self).links(a, b) {
                        assert(old(self)@.contains(pair));
                    }
                }
                if old(self)@.contains(pair) {
                    let (a, b) = choose|a: int, b: int|
                        old(self).links(a, b) && old(self).peers[a] == pair.0 && old(
                            self,
                        ).peers[b] == pair.1;
                    assert(self.links(a, b));
                }
                if pair == (peer0, peer1) {
                    assert(self.links(i as int, j as int));
                }
                if pair == (peer1, peer0) {
                    assert(self.links(j as int, i as int));
                }
            }
            assert(self@ =~= old(self)@.insert((peer0, peer1)).insert((peer1, peer0)));
            assert forall|a: int, b: int| self.links(a, b) implies self.links(b, a) by {
                if old(self).links(a, b) {
                    assert(old(self).links(b, a));
                }
            }
        }
    }

    /// Disconnects `peer0` and `peer1`. Nothing changes if they are not
    /// connected.
    pub fn remove_edge(&mut self, peer0: &PeerId, peer1: &PeerId)
        requires
            old(self).wf(),
        ensures
            final(self).wf(),
            final(self).source() == old(self).source(),
            final(self)@ == old(self)@.remove((*peer0, *peer1)).remove((*peer1, *peer0)),
    {
        match (self.position(peer0), self.position(peer1)) {
            (Some(i), Some(j)) => {
                self.remove_directed_edge(i, j);
                self.remove_directed_edge(j, i);
                proof {
                    assert forall|pair: (PeerId, PeerId)|
                        self@.contains(pair) == old(self)@.remove((*peer0, *peer1)).remove(
                            (*peer1, *peer0),
                        ).contains(pair) by {
                        if self@.contains(pair) {
                            let (a, b) = choose|a: int, b: int|
                                self.links(a, b) && self.peers[a] == pair.0 && self.peers[b]
                                    == pair.1;
                            assert(old(self).links(a, b));
                        }
                        if old(self)@.contains(pair) && pair != (*peer0, *peer1) && pair != (
                            *peer1,
                            *peer0,
                        ) {
                            let (a, b) = choose|a: int, b: int|
                                old(self).links(a, b) && old(self).peers[a] == pair.0 && old(
                                    self,
                                ).peers[b] == pair.1;
                            assert(self.links(a, b));
                        }
                    }
                    assert(self@ =~= old(self)@.remove((*peer0, *peer1)).remove((*peer1, *peer0)));
                    assert forall|a: int, b: int| self.links(a, b) implies self.links(b, a) by {
                        assert(old(self).links(b, a));
                    }
                }
            },
            _ => {
                assert(!self@.contains((*peer0, *peer1)));
                assert(!self@.contains((*peer1, *peer0)));
                assert(self@ =~= old(self)@.remove((*peer0, *peer1)).remove((*peer1, *peer0)));
            },
        }
    }
}

/// The state of a breadth-first search from the source of a graph. Peers
/// are named by their positions.
struct Search {
    /// For each peer its distance from the source, once it is found.
    dist: Vec<Option<usize>>,
    /// The peers found so far, but for the source, in the order found.
    queue: Vec<usize>,
    /// For each peer, and for each place in the source's list of neighbors,
    /// whether the neighbor at that place is known as a first hop to the
    /// peer.
    routes: Vec<Vec<bool>>,
}

/// The number of peers that a search has not found.
spec fn unseen(dist: Seq<Option<usize>>) -> nat
    decreases dist.len(),
{
    if dist.len() == 0 {
        0
    } else {
        unseen(dist.drop_last()) + if dist.last() is None {
            1nat
        } else {
            0nat
        }
    }
}

proof fn lemma_unseen_found(dist: Seq<Option<usize>>, w: int, d: usize)
    requires
        0 <= w < dist.len(),
        dist[w] is None,
    ensures
        unseen(dist.update(w, Some(d))) + 1 == unseen(dist),
    decreases dist.len(),
{
    let after = dist.update(w, Some(d));
    if w == dist.len() - 1 {
        assert(after.drop_last() =~= dist.drop_last());
    } else {
        assert(after.drop_last() =~= dist.drop_last().update(w, Some(d)));
        lemma_unseen_found(dist.drop_last(), w, d);
    }
}

proof fn lemma_unseen_push(dist: Seq<Option<usize>>)
    ensures
        unseen(dist.push(None)) == unseen(dist) + 1,
{
    assert(dist.push(None).drop_last() =~= dist);
}

impl Search {
    /// The distance noted for the peer `w`.
    spec fn dval(&self, w: usize) -> int {
        self.dist[w as int].unwrap() as int
    }

    /// Whether the neighbor of the source at place `t` is noted as a first
    /// hop to the peer `w`.
    spec fn bit(&self, w: int, t: int) -> bool {
        self.routes[w][t]
    }
}

impl Graph {
    /// The connections of the graph between positions.
    spec fn index_edges(&self) -> Set<(int, int)> {
        Set::new(|pair: (int, int)| self.links(pair.0, pair.1))
    }

    /// The neighbor of the peer `s` at place `t` of its list.
    spec fn hop(&self, s: int, t: int) -> int {
        self.adjacency[s][t] as int
    }

    /// What a search from `s` has established when the first `head` peers of
    /// its queue have been visited.
    spec fn search_inv(&self, s: int, st: Search, head: int) -> bool {
        let n = self.peers.len();
        let k = self.adjacency[s].len();
        let e = self.index_edges();
        &&& self.shape()
        &&& 0 <= s < n
        &&& 0 <= head <= st.queue.len()
        &&& st.dist.len() == n
        &&& st.routes.len() == n
        &&& forall|w: int| 0 <= w < n ==> (#[trigger] st.routes[w]).len() == k
        &&& st.dist[s] == Some(0usize)
        &&& st.queue@.no_duplicates()
        &&& st.queue.len() + 1 + unseen(st.dist@) == n
        &&& forall|i: int|
            0 <= i < st.queue.len() ==> {
                let w = #[trigger] st.queue[i];
                w < n && w != s && st.dist[w as int] is Some && 1 <= st.dval(w) <= i + 1
            }
        &&& forall|w: int|
            0 <= w < n && w != s && (#[trigger] st.dist[w]) is Some ==> st.queue@.contains(
                w as usize,
            )
        &&& forall|w: int|
            0 <= w < n && (#[trigger] st.dist[w]) is Some ==> is_distance(
                e,
                s,
                w,
                st.dist[w].unwrap() as nat,
            )
        &&& forall|i: int, j: int|
            0 <= i <= j < st.queue.len() ==> st.dval(#[trigger] st.queue[i]) <= st.dval(
                #[trigger] st.queue[j],
            )
        &&& head < st.queue.len() ==> forall|j: int|
            0 <= j < st.queue.len() ==> st.dval(#[trigger] st.queue[j]) <= st.dval(
                st.queue[head],
            ) + 1
        &&& forall|w: int| #[trigger] self.links(s, w) ==> st.dist[w] is Some
        &&& forall|i: int, w: int|
            0 <= i < head && #[trigger] self.links(st.queue[i] as int, w) ==> st.dist[w] is Some
        &&& forall|w: int, t: int|
            0 <= w < n && 0 <= t < k && w != s && #[trigger] st.bit(w, t) ==> is_first_hop(
                e,
                s,
                self.hop(s, t),
                w,
            )
        &&& forall|t: int| 0 <= t < k && #[trigger] self.hop(s, t) != s ==> st.bit(self.hop(s, t), t)
        &&& forall|i: int, w: int, t: int|
            0 <= i < head && #[trigger] self.links(st.queue[i] as int, w) && 0 <= t < k
                && st.dist[w] == Some((st.dval(st.queue[i]) + 1) as usize) && #[trigger] st.bit(
                st.queue[i] as int,
                t,
            ) ==> st.bit(w, t)
    }
}

impl Graph {
    /// A search has found every peer that a walk from the source reaches in
    /// no more steps than the peer that is visited next is away.
    proof fn lemma_found(&self, s: int, st: Search, head: int, x: int, len: nat)
        requires
            self.search_inv(s, st, head),
            walk(self.index_edges(), s, x, len),
            head < st.queue.len() ==> len <= st.dval(st.queue[head]),
        ensures
            0 <= x < self.peers.len(),
            st.dist[x] is Some,
        decreases len,
    {
        let e = self.index_edges();
        if len > 0 {
            let via = choose|via: int|
                walk(e, s, via, (len - 1) as nat) && #[trigger] e.contains((via, x));
            self.lemma_found(s, st, head, via, (len - 1) as nat);
            assert(self.links(via, x));
            if via != s {
                assert(st.dist[via] is Some);
                assert(st.queue@.contains(via as usize));
                let i = choose|i: int| 0 <= i < st.queue.len() && st.queue[i] == via as usize;
                assert(is_distance(e, s, via, st.dist[via].unwrap() as nat));
                assert(st.dval(st.queue[i]) <= len - 1) by {
                    if st.dval(st.queue[i]) > len - 1 {
                        assert(!walk(e, s, via, (len - 1) as nat));
                    }
                }
                if i >= head {
                    assert(st.dval(st.queue[head]) <= st.dval(st.queue[i]));
                }
                assert(self.links(st.queue[i] as int, x));
            }
        }
    }
}

/// A row of `k` cleared marks.
fn cleared_row(k: usize) -> (row: Vec<bool>)
    ensures
        row.len() == k,
        forall|t: int| 0 <= t < k ==> !row[t],
{
    let mut row: Vec<bool> = Vec::new();
    while row.len() < k
        invariant
            row.len() <= k,
            forall|t: int| 0 <= t < row.len() ==> !row[t],
        decreases k - row.len(),
    {
        row.push(false);
    }
    row
}

impl Graph {
    /// A search in which nothing is found yet.
    fn blank(&self, k: usize) -> (st: Search)
        ensures
            st.dist.len() == self.peers.len(),
            st.routes.len() == self.peers.len(),
            st.queue.len() == 0,
            unseen(st.dist@) == self.peers.len(),
            forall|w: int| 0 <= w < self.peers.len() ==> (#[trigger] st.dist[w]) is None,
            forall|w: int| 0 <= w < self.peers.len() ==> (#[trigger] st.routes[w]).len() == k,
            forall|w: int, t: int| 0 <= w < self.peers.len() && 0 <= t < k ==> !#[trigger] st.bit(w, t),
    {
        let n = self.peers.len();
        let mut dist: Vec<Option<usize>> = Vec::new();
        let mut routes: Vec<Vec<bool>> = Vec::new();
        while dist.len() < n
            invariant
                dist.len() <= n,
                routes.len() == dist.len(),
                unseen(dist@) == dist.len(),
                forall|w: int| 0 <= w < dist.len() ==> (#[trigger] dist[w]) is None,
                forall|w: int| 0 <= w < dist.len() ==> (#[trigger] routes[w]).len() == k,
                forall|w: int, t: int|
                    0 <= w < dist.len() && 0 <= t < k ==> !(#[trigger] routes[w][t]),
            decreases n - dist.len(),
        {
            proof {
                lemma_unseen_push(dist@);
            }
            dist.push(None);
            routes.push(cleared_row(k));
        }
        Search { dist, queue: Vec::new(), routes }
    }

    /// What the search holds while the neighbors of the source are entered:
    /// those at the first `t` places of its list are in the queue, each at
    /// distance one and its own first hop.
    spec fn seed_inv(&self, s: int, st: Search, t: int) -> bool {
        let n = self.peers.len();
        let k = self.adjacency[s].len();
        &&& self.shape()
        &&& 0 <= s < n
        &&& 0 <= t <= k
        &&& st.dist.len() == n
        &&& st.routes.len() == n
        &&& forall|w: int| 0 <= w < n ==> (#[trigger] st.routes[w]).len() == k
        &&& st.dist[s] == Some(0usize)
        &&& st.queue@.no_duplicates()
        &&& st.queue.len() + 1 + unseen(st.dist@) == n
        &&& forall|i: int|
            0 <= i < st.queue.len() ==> {
                let w = #[trigger] st.queue[i];
                w < n && w != s && st.dist[w as int] == Some(1usize)
            }
        &&& forall|w: int|
            0 <= w < n && w != s && (#[trigger] st.dist[w]) is Some ==> {
                &&& st.queue@.contains(w as usize)
                &&& st.dist[w] == Some(1usize)
                &&& exists|x: int| 0 <= x < t && #[trigger] self.hop(s, x) == w
            }
        &&& forall|x: int| 0 <= x < t ==> st.dist[#[trigger] self.hop(s, x)] is Some
        &&& forall|x: int| 0 <= x < t && #[trigger] self.hop(s, x) != s ==> st.bit(self.hop(s, x), x)
        &&& forall|w: int, x: int|
            0 <= w < n && 0 <= x < k && #[trigger] st.bit(w, x) ==> w == self.hop(s, x) && w != s
    }

    /// The search from the peer at `s` before any peer is visited.
    fn seed(&self, s: usize) -> (st: Search)
        requires
            self.shape(),
            s < self.peers.len(),
        ensures
            self.search_inv(s as int, st, 0),
    {
        let k = self.adjacency[s].len();
        let mut st = self.blank(k);
        let ghost blank = st;
        proof {
            lemma_unseen_found(st.dist@, s as int, 0);
        }
        st.dist[s] = Some(0);
        proof {
            assert(st.dist@ == blank.dist@.update(s as int, Some(0usize)));
            assert(st.routes == blank.routes);
            assert forall|w: int| 0 <= w < self.peers.len() && w != s implies (
            #[trigger] st.dist[w]) is None by {
                assert(blank.dist[w] is None);
            }
            assert forall|w: int, x: int|
                0 <= w < self.peers.len() && 0 <= x < k implies !#[trigger] st.bit(w, x) by {
                assert(!blank.bit(w, x));
            }
        }
        let mut t: usize = 0;
        while t < k
            invariant
                k == self.adjacency[s as int].len(),
                self.seed_inv(s as int, st, t as int),
            decreases k - t,
        {
            let w = self.adjacency[s][t];
            assert(w == self.hop(s as int, t as int));
            assert(self.adjacency[s as int][t as int] < self.peers.len());
            if w != s {
                let ghost before = st;
                assert(st.dist[w as int] is None) by {
                    if st.dist[w as int] is Some {
                        let x = choose|x: int| 0 <= x < t && #[trigger] self.hop(s as int, x) == w;
                        assert(self.adjacency[s as int]@[x] == self.adjacency[s as int]@[t as int]);
                    }
                }
                proof {
                    lemma_unseen_found(st.dist@, w as int, 1);
                }
                st.dist[w] = Some(1);
                st.queue.push(w);
                st.routes[w][t] = true;
                proof {
                    assert forall|i: int| 0 <= i < st.queue.len() implies {
                        let v = #[trigger] st.queue[i];
                        v < self.peers.len() && v != s && st.dist[v as int] == Some(1usize)
                    } by {
                        if i < before.queue.len() {
                            assert(st.queue[i] == before.queue[i]);
                        }
                    }
                    assert forall|v: int|
                        0 <= v < self.peers.len() && v != s && (
                        #[trigger] st.dist[v]) is Some implies {
                        &&& st.queue@.contains(v as usize)
                        &&& st.dist[v] == Some(1usize)
                        &&& exists|x: int| 0 <= x < t + 1 && #[trigger] self.hop(s as int, x) == v
                    } by {
                        if v == w {
                            assert(st.queue@[before.queue.len() as int] == w);
                            assert(self.hop(s as int, t as int) == v);
                        } else {
                            assert(before.dist[v] is Some);
                            let i = choose|i: int|
                                0 <= i < before.queue.len() && before.queue[i] == v as usize;
                            assert(st.queue@[i] == v as usize);
                            let x = choose|x: int|
                                0 <= x < t && #[trigger] self.hop(s as int, x) == v;
                            assert(self.hop(s as int, x) == v);
                        }
                    }
                    assert forall|x: int| 0 <= x < t + 1 implies st.dist[#[trigger] self.hop(
                        s as int,
                        x,
                    )] is Some by {
                        if x < t {
                            assert(before.dist[self.hop(s as int, x)] is Some);
                        }
                    }
                    assert forall|v: int, x: int|
                        0 <= v < self.peers.len() && 0 <= x < k && #[trigger] st.bit(
                            v,
                            x,
                        ) implies v == self.hop(s as int, x) && v != s by {
                        if v == w && x == t {
                        } else {
                            assert(before.bit(v, x));
                        }
                    }
                    assert forall|x: int|
                        0 <= x < t + 1 && #[trigger] self.hop(s as int, x) != s implies st.bit(
                        self.hop(s as int, x),
                        x,
                    ) by {
                        if x < t {
                            assert(before.bit(self.hop(s as int, x), x));
                        }
                    }
                    assert forall|v: int| 0 <= v < self.peers.len() implies (
                    #[trigger] st.routes[v]).len() == k by {
                        assert(before.routes[v].len() == k);
                    }
                    assert(st.queue@.no_duplicates()) by {
                        assert forall|i: int| 0 <= i < before.queue.len() implies before.queue[i]
                            != w by {
                            assert(before.dist[before.queue[i] as int] == Some(1usize));
                        }
                    }
                }
            } else {
                proof {
                    assert forall|v: int|
                        0 <= v < self.peers.len() && v != s && (
                        #[trigger] st.dist[v]) is Some implies {
                        &&& st.queue@.contains(v as usize)
                        &&& st.dist[v] == Some(1usize)
                        &&& exists|x: int| 0 <= x < t + 1 && #[trigger] self.hop(s as int, x) == v
                    } by {
                        let x = choose|x: int|
                            0 <= x < t && #[trigger] self.hop(s as int, x) == v;
                        assert(self.hop(s as int, x) == v);
                    }
                }
            }
            t += 1;
        }
        proof {
            self.lemma_seeded(s as int, st);
        }
        st
    }

    /// Once all neighbors of the source are entered, the search stands as
    /// one in which no peer has been visited.
    proof fn lemma_seeded(&self, s: int, st: Search)
        requires
            self.seed_inv(s, st, self.adjacency[s].len() as int),
        ensures
            self.search_inv(s, st, 0),
    {
        let n = self.peers.len();
        let k = self.adjacency[s].len();
        let e = self.index_edges();
        assert forall|w: int| 0 <= w < n && (#[trigger] st.dist[w]) is Some implies is_distance(
            e,
            s,
            w,
            st.dist[w].unwrap() as nat,
        ) by {
            if w != s {
                let x = choose|x: int| 0 <= x < k && #[trigger] self.hop(s, x) == w;
                assert(self.adjacency[s]@[x] == w as usize);
                assert(self.links(s, w));
                lemma_walk_one(e, s, w);
            }
        }
        assert forall|w: int| #[trigger] self.links(s, w) implies st.dist[w] is Some by {
            let x = choose|x: int|
                0 <= x < self.adjacency[s]@.len() && self.adjacency[s]@[x] == w as usize;
            assert(self.hop(s, x) == w);
        }
        assert forall|w: int, t: int|
            0 <= w < n && 0 <= t < k && w != s && #[trigger] st.bit(w, t) implies is_first_hop(
            e,
            s,
            self.hop(s, t),
            w,
        ) by {
            assert(st.dist[self.hop(s, t)] is Some);
            assert(st.dist[w] == Some(1usize));
            lemma_first_hop_neighbor(e, s, w, w);
        }
        assert forall|i: int|
            0 <= i < st.queue.len() implies {
                let w = #[trigger] st.queue[i];
                w < n && w != s && st.dist[w as int] is Some && 1 <= st.dval(w) <= i + 1
            } by {
            assert(st.dist[st.queue[i] as int] == Some(1usize));
        }
        assert forall|i: int, j: int| 0 <= i <= j < st.queue.len() implies st.dval(
            #[trigger] st.queue[i],
        ) <= st.dval(#[trigger] st.queue[j]) by {
            assert(st.dist[st.queue[i] as int] == Some(1usize));
            assert(st.dist[st.queue[j] as int] == Some(1usize));
        }
        if 0 < st.queue.len() {
            assert forall|j: int| 0 <= j < st.queue.len() implies st.dval(#[trigger] st.queue[j])
                <= st.dval(st.queue[0]) + 1 by {
                assert(st.dist[st.queue[j] as int] == Some(1usize));
                assert(st.dist[st.queue[0] as int] == Some(1usize));
            }
        }
    }
}

impl Graph {
    /// What the search holds while the peer at `head` of the queue is
    /// visited and its neighbors at the first `m` places are done with.
    spec fn visit_inv(&self, s: int, st: Search, head: int, m: int) -> bool {
        let k = self.adjacency[s].len();
        &&& self.search_inv(s, st, head)
        &&& head < st.queue.len()
        &&& 0 <= m <= self.adjacency[st.queue[head] as int].len()
        &&& forall|x: int|
            0 <= x < m ==> st.dist[#[trigger] self.hop(st.queue[head] as int, x)] is Some
        &&& forall|x: int, t: int|
            0 <= x < m && 0 <= t < k && st.dist[#[trigger] self.hop(st.queue[head] as int, x)]
                == Some((st.dval(st.queue[head]) + 1) as usize) && #[trigger] st.bit(
                st.queue[head] as int,
                t,
            ) ==> st.bit(self.hop(st.queue[head] as int, x), t)
    }

    /// Entering a newly found neighbor of the visited peer keeps the search
    /// in order.
    proof fn lemma_discover(&self, s: int, before: Search, after: Search, head: int, w: int)
        requires
            self.search_inv(s, before, head),
            head < before.queue.len(),
            self.links(before.queue[head] as int, w),
            before.dist[w] is None,
            after.dist@ == before.dist@.update(
                w,
                Some((before.dval(before.queue[head]) + 1) as usize),
            ),
            after.queue@ == before.queue@.push(w as usize),
            after.routes == before.routes,
        ensures
            before.dval(before.queue[head]) + 1 <= usize::MAX,
            self.search_inv(s, after, head),
    {
        let n = self.peers.len();
        let k = self.adjacency[s].len();
        let e = self.index_edges();
        let u = before.queue[head];
        let du = before.dval(u);
        let len = before.queue.len() as int;
        assert(u == before.queue[head] && 1 <= du <= head + 1);
        assert(0 <= w < n);
        lemma_unseen_found(before.dist@, w, (du + 1) as usize);
        assert(after.queue[len] == w as usize);
        assert forall|i: int| 0 <= i < len implies #[trigger] after.queue[i] == before.queue[i]
            && before.queue[i] != w by {
            assert(before.dist[before.queue[i] as int] is Some);
        }
        assert(after.queue@.no_duplicates());
        assert forall|i: int|
            0 <= i < after.queue.len() implies {
                let v = #[trigger] after.queue[i];
                v < n && v != s && after.dist[v as int] is Some && 1 <= after.dval(v) <= i + 1
            } by {
            if i < len {
                assert(after.queue[i] == before.queue[i]);
            }
        }
        assert forall|v: int|
            0 <= v < n && v != s && (#[trigger] after.dist[v]) is Some implies after.queue@.contains(
            v as usize,
        ) by {
            if v != w {
                assert(before.dist[v] is Some);
                let i = choose|i: int| 0 <= i < len && before.queue[i] == v as usize;
                assert(after.queue@[i] == v as usize);
            }
        }
        assert(is_distance(e, s, u as int, du as nat)) by {
            assert(before.dist[u as int] is Some);
        }
        assert(is_distance(e, s, w, (du + 1) as nat)) by {
            lemma_walk_extend(e, s, u as int, w, du as nat);
            assert forall|len: nat| len < du + 1 implies !walk(e, s, w, len) by {
                if walk(e, s, w, len) {
                    self.lemma_found(s, before, head, w, len);
                }
            }
        }
        assert forall|v: int| 0 <= v < n && (#[trigger] after.dist[v]) is Some implies is_distance(
            e,
            s,
            v,
            after.dist[v].unwrap() as nat,
        ) by {
            if v != w {
                assert(before.dist[v] is Some);
            }
        }
        assert forall|i: int, j: int| 0 <= i <= j < after.queue.len() implies after.dval(
            #[trigger] after.queue[i],
        ) <= after.dval(#[trigger] after.queue[j]) by {
            assert(after.queue[i] == before.queue[i] || i == len);
            if j < len {
                assert(before.dval(before.queue[i]) <= before.dval(before.queue[j]));
            } else if i < len {
                assert(before.dval(before.queue[i]) <= du + 1);
            }
        }
        assert forall|j: int| 0 <= j < after.queue.len() implies after.dval(
            #[trigger] after.queue[j],
        ) <= after.dval(after.queue[head]) + 1 by {
            if j < len {
                assert(before.dval(before.queue[j]) <= du + 1);
            }
        }
        assert forall|v: int| #[trigger] self.links(s, v) implies after.dist[v] is Some by {
            assert(before.dist[v] is Some);
        }
        assert forall|i: int, v: int|
            0 <= i < head && #[trigger] self.links(
                after.queue[i] as int,
                v,
            ) implies after.dist[v] is Some by {
            assert(self.links(before.queue[i] as int, v));
            assert(before.dist[v] is Some);
        }
        assert forall|v: int, t: int|
            0 <= v < n && 0 <= t < k && v != s && #[trigger] after.bit(v, t) implies is_first_hop(
            e,
            s,
            self.hop(s, t),
            v,
        ) by {
            assert(before.bit(v, t));
        }
        assert forall|t: int| 0 <= t < k && #[trigger] self.hop(s, t) != s implies after.bit(
            self.hop(s, t),
            t,
        ) by {
            assert(before.bit(self.hop(s, t), t));
        }
        assert forall|i: int, v: int, t: int|
            0 <= i < head && #[trigger] self.links(after.queue[i] as int, v) && 0 <= t < k
                && after.dist[v] == Some((after.dval(after.queue[i]) + 1) as usize)
                && #[trigger] after.bit(after.queue[i] as int, t) implies after.bit(v, t) by {
            assert(self.links(before.queue[i] as int, v));
            assert(before.dist[v] is Some);
            assert(before.bit(before.queue[i] as int, t));
        }
    }

    /// Joining the first hops of the visited peer to those of a neighbor
    /// one step further keeps the search in order.
    proof fn lemma_merge(&self, s: int, before: Search, after: Search, head: int, w: int)
        requires
            self.search_inv(s, before, head),
            head < before.queue.len(),
            self.links(before.queue[head] as int, w),
            before.dist[w] == Some((before.dval(before.queue[head]) + 1) as usize),
            before.dval(before.queue[head]) + 1 <= usize::MAX,
            after.dist == before.dist,
            after.queue == before.queue,
            after.routes.len() == before.routes.len(),
            forall|v: int|
                0 <= v < before.routes.len() && v != w ==> #[trigger] after.routes[v]
                    == before.routes[v],
            after.routes[w].len() == before.routes[w].len(),
            forall|t: int|
                0 <= t < before.routes[w].len() ==> #[trigger] after.bit(w, t) == (before.bit(w, t)
                    || before.bit(before.queue[head] as int, t)),
        ensures
            self.search_inv(s, after, head),
    {
        let n = self.peers.len();
        let k = self.adjacency[s].len();
        let e = self.index_edges();
        let u = before.queue[head];
        let du = before.dval(u);
        assert(u == before.queue[head] && 1 <= du);
        assert(before.dist[u as int] is Some);
        assert(is_distance(e, s, u as int, du as nat));
        assert(before.dist[w] is Some);
        assert(is_distance(e, s, w, (du + 1) as nat));
        assert(before.routes[w].len() == k);
        assert forall|v: int| 0 <= v < n implies (#[trigger] after.routes[v]).len() == k by {
            assert(before.routes[v].len() == k);
        }
        assert forall|v: int, t: int| 0 <= v < n && 0 <= t < k && v != w implies #[trigger] after.bit(
            v,
            t,
        ) == before.bit(v, t) by {
            assert(after.routes[v] == before.routes[v]);
        }
        assert forall|v: int, t: int|
            0 <= v < n && 0 <= t < k && v != s && #[trigger] after.bit(v, t) implies is_first_hop(
            e,
            s,
            self.hop(s, t),
            v,
        ) by {
            if v == w && !before.bit(w, t) {
                assert(before.bit(u as int, t));
                assert(is_first_hop(e, s, self.hop(s, t), u as int));
                lemma_first_hop_extend(e, s, self.hop(s, t), u as int, w, du as nat);
            } else {
                assert(before.bit(v, t));
            }
        }
        assert forall|t: int| 0 <= t < k && #[trigger] self.hop(s, t) != s implies after.bit(
            self.hop(s, t),
            t,
        ) by {
            assert(before.bit(self.hop(s, t), t));
            assert(self.adjacency[s][t] < n);
        }
        assert forall|i: int, v: int, t: int|
            0 <= i < head && #[trigger] self.links(after.queue[i] as int, v) && 0 <= t < k
                && after.dist[v] == Some((after.dval(after.queue[i]) + 1) as usize)
                && #[trigger] after.bit(after.queue[i] as int, t) implies after.bit(v, t) by {
            assert(before.dval(before.queue[i]) <= before.dval(before.queue[head]));
            assert(before.queue[i] != w);
            assert(before.bit(before.queue[i] as int, t));
            assert(before.bit(v, t));
        }
    }

    /// When all neighbors of the visited peer are done with, the peer is.
    proof fn lemma_visited(&self, s: int, st: Search, head: int)
        requires
            self.visit_inv(s, st, head, self.adjacency[st.queue[head] as int].len() as int),
        ensures
            self.search_inv(s, st, head + 1),
    {
        let k = self.adjacency[s].len();
        let u = st.queue[head] as int;
        assert forall|i: int, w: int|
            0 <= i < head + 1 && #[trigger] self.links(
                st.queue[i] as int,
                w,
            ) implies st.dist[w] is Some by {
            if i == head {
                let x = choose|x: int|
                    0 <= x < self.adjacency[u]@.len() && self.adjacency[u]@[x] == w as usize;
                assert(self.hop(u, x) == w);
            }
        }
        assert forall|i: int, w: int, t: int|
            0 <= i < head + 1 && #[trigger] self.links(st.queue[i] as int, w) && 0 <= t < k
                && st.dist[w] == Some((st.dval(st.queue[i]) + 1) as usize) && #[trigger] st.bit(
                st.queue[i] as int,
                t,
            ) implies st.bit(w, t) by {
            if i == head {
                let x = choose|x: int|
                    0 <= x < self.adjacency[u]@.len() && self.adjacency[u]@[x] == w as usize;
                assert(self.hop(u, x) == w);
            }
        }
        if head + 1 < st.queue.len() {
            assert forall|j: int| 0 <= j < st.queue.len() implies st.dval(#[trigger] st.queue[j])
                <= st.dval(st.queue[head + 1]) + 1 by {
                assert(st.dval(st.queue[j]) <= st.dval(st.queue[head]) + 1);
                assert(st.dval(st.queue[head]) <= st.dval(st.queue[head + 1]));
            }
        }
    }

    /// Visits the peer at `head` of the queue: each neighbor not yet found
    /// is entered one step further from the source, and each neighbor one
    /// step further takes over the first hops of the visited peer.
    fn visit(&self, s: usize, st: &mut Search, head: usize)
        requires
            self.search_inv(s as int, *old(st), head as int),
            head < old(st).queue.len(),
        ensures
            self.search_inv(s as int, *final(st), head + 1),
    {
        let u = st.queue[head];
        assert(st.queue[head as int] < self.peers.len() && st.dist[u as int] is Some);
        let du = st.dist[u].unwrap();
        let k = self.adjacency[s].len();
        let degree = self.adjacency[u].len();
        let mut m: usize = 0;
        while m < degree
            invariant
                s < self.peers.len(),
                k == self.adjacency[s as int].len(),
                head < st.queue.len(),
                u == st.queue[head as int],
                u < self.peers.len(),
                degree == self.adjacency[u as int].len(),
                st.dist[u as int] == Some(du),
                self.visit_inv(s as int, *st, head as int, m as int),
            decreases degree - m,
        {
            let w = self.adjacency[u][m];
            assert(w == self.hop(u as int, m as int));
            assert(self.adjacency[u as int][m as int] < self.peers.len());
            assert(self.links(u as int, w as int)) by {
                assert(self.adjacency[u as int]@[m as int] == w);
            }
            let ghost entered = *st;
            if st.dist[w].is_none() {
                assert(du + 1 <= usize::MAX) by {
                    assert(1 <= st.dval(st.queue[head as int]) <= head + 1);
                    assert(st.queue.len() + 1 + unseen(st.dist@) == self.peers.len());
                }
                st.dist[w] = Some(du + 1);
                st.queue.push(w);
                proof {
                    self.lemma_discover(s as int, entered, *st, head as int, w as int);
                }
            }
            let ghost found = *st;
            assert(found.queue[head as int] == u);
            assert(found.dist[u as int] == Some(du)) by {
                assert(entered.dist[u as int] == Some(du));
            }
            let reached = match st.dist[w] {
                Some(dw) => du < usize::MAX && dw == du + 1,
                None => false,
            };
            if reached {
                let mut row: Vec<bool> = Vec::new();
                let mut t: usize = 0;
                assert(st.routes[u as int].len() == k);
                assert(st.routes[w as int].len() == k);
                while t < k
                    invariant
                        t <= k,
                        row.len() == t,
                        u < st.routes.len(),
                        w < st.routes.len(),
                        st.routes[u as int].len() == k,
                        st.routes[w as int].len() == k,
                        forall|x: int|
                            0 <= x < t ==> row[x] == (st.bit(w as int, x) || st.bit(u as int, x)),
                    decreases k - t,
                {
                    row.push(st.routes[w][t] || st.routes[u][t]);
                    t += 1;
                }
                st.routes[w] = row;
                proof {
                    assert forall|x: int| 0 <= x < k implies #[trigger] st.bit(w as int, x) == (
                    found.bit(w as int, x) || found.bit(u as int, x)) by {}
                    self.lemma_merge(s as int, found, *st, head as int, w as int);
                }
            }
            proof {
                let done = *st;
                assert(forall|v: int|
                    0 <= v < self.peers.len() && (#[trigger] entered.dist[v]) is Some
                        ==> done.dist[v] == entered.dist[v]);
                assert forall|x: int| 0 <= x < m + 1 implies done.dist[#[trigger] self.hop(
                    u as int,
                    x,
                )] is Some by {
                    if x < m {
                        assert(entered.dist[self.hop(u as int, x)] is Some);
                    }
                }
                assert forall|x: int, t: int|
                    0 <= x < m + 1 && 0 <= t < k && done.dist[#[trigger] self.hop(u as int, x)]
                        == Some((done.dval(u) + 1) as usize) && #[trigger] done.bit(
                        u as int,
                        t,
                    ) implies done.bit(self.hop(u as int, x), t) by {
                    let v = self.hop(u as int, x);
                    assert(self.adjacency[u as int][x] < self.peers.len());
                    assert(found.routes[u as int] == entered.routes[u as int]);
                    if reached {
                        assert(u != w);
                        assert(done.routes[u as int] == found.routes[u as int]);
                    }
                    assert(entered.bit(u as int, t));
                    if x < m {
                        assert(self.adjacency[u as int]@[x] != self.adjacency[u as int]@[m as int]);
                        assert(entered.dist[v] is Some);
                        assert(entered.bit(v, t));
                        if reached {
                            assert(done.routes[v] == found.routes[v]);
                        }
                    }
                }
            }
            m += 1;
        }
        proof {
            self.lemma_visited(s as int, *st, head as int);
        }
    }

    /// The search from the peer at `s`, carried through.
    fn search(&self, s: usize) -> (st: Search)
        requires
            self.shape(),
            s < self.peers.len(),
        ensures
            self.search_inv(s as int, st, st.queue.len() as int),
    {
        let mut st = self.seed(s);
        let mut head: usize = 0;
        while head < st.queue.len()
            invariant
                self.search_inv(s as int, st, head as int),
            decreases self.peers.len() - head,
        {
            self.visit(s, &mut st, head);
            head += 1;
        }
        st
    }
}

impl Graph {
    /// At the end of a search every first hop to a peer is noted for it.
    proof fn lemma_complete(&self, s: int, st: Search, w: int, t: int, d: nat)
        requires
            self.search_inv(s, st, st.queue.len() as int),
            0 <= w < self.peers.len(),
            w != s,
            st.dist[w] is Some,
            st.dist[w].unwrap() == d,
            0 <= t < self.adjacency[s].len(),
            is_first_hop(self.index_edges(), s, self.hop(s, t), w),
        ensures
            st.bit(w, t),
        decreases d,
    {
        let e = self.index_edges();
        let h = self.hop(s, t);
        let len = st.queue.len() as int;
        assert(is_distance(e, s, w, d));
        assert(st.queue@.contains(w as usize));
        let iw = choose|i: int| 0 <= i < st.queue.len() && st.queue[i] == w as usize;
        assert(1 <= st.dval(st.queue[iw]));
        if d == 1 {
            lemma_first_hop_neighbor(e, s, h, w);
            assert(self.hop(s, t) != s);
        } else {
            let via = lemma_first_hop_before(e, s, h, w, d);
            let dv = (d - 1) as nat;
            self.lemma_found(s, st, len, via, dv);
            assert(self.links(via, w));
            assert(is_distance(e, s, via, st.dist[via].unwrap() as nat));
            lemma_distance_unique(e, s, via, dv);
            assert(st.dist[via].unwrap() == dv);
            assert(via != s);
            self.lemma_complete(s, st, via, t, dv);
            assert(st.queue@.contains(via as usize));
            let i = choose|i: int| 0 <= i < st.queue.len() && st.queue[i] == via as usize;
            assert(self.links(st.queue[i] as int, w));
            assert(st.bit(st.queue[i] as int, t));
        }
    }

    /// A walk between positions is a walk between the peers at them.
    proof fn lemma_walk_up(&self, i: int, j: int, len: nat)
        requires
            self.shape(),
            0 <= i < self.peers.len(),
            walk(self.index_edges(), i, j, len),
        ensures
            0 <= j < self.peers.len(),
            walk(self@, self.peers[i], self.peers[j], len),
        decreases len,
    {
        let e = self.index_edges();
        if len > 0 {
            let via = choose|via: int|
                walk(e, i, via, (len - 1) as nat) && #[trigger] e.contains((via, j));
            self.lemma_walk_up(i, via, (len - 1) as nat);
            assert(self.links(via, j));
            assert(self@.contains((self.peers[via], self.peers[j])));
        }
    }

    /// A walk from a peer of the graph ends at a peer of the graph, and is a
    /// walk between their positions.
    proof fn lemma_walk_down(&self, i: int, to: PeerId, len: nat) -> (j: int)
        requires
            self.shape(),
            0 <= i < self.peers.len(),
            walk(self@, self.peers[i], to, len),
        ensures
            0 <= j < self.peers.len(),
            self.peers[j] == to,
            walk(self.index_edges(), i, j, len),
        decreases len,
    {
        let e = self.index_edges();
        if len == 0 {
            i
        } else {
            let via = choose|via: PeerId|
                walk(self@, self.peers[i], via, (len - 1) as nat) && #[trigger] self@.contains(
                    (via, to),
                );
            let v = self.lemma_walk_down(i, via, (len - 1) as nat);
            let (a, b) = choose|a: int, b: int|
                self.links(a, b) && self.peers[a] == via && self.peers[b] == to;
            assert(a == v);
            assert(e.contains((v, b)));
            b
        }
    }

    /// A walk that starts at no peer of the graph goes nowhere.
    proof fn lemma_walk_outside(&self, from: PeerId, to: PeerId, len: nat)
        requires
            self.shape(),
            forall|i: int| 0 <= i < self.peers.len() ==> self.peers[i] != from,
            walk(self@, from, to, len),
        ensures
            to == from,
        decreases len,
    {
        if len > 0 {
            let via = choose|via: PeerId|
                walk(self@, from, via, (len - 1) as nat) && #[trigger] self@.contains((via, to));
            self.lemma_walk_outside(from, via, (len - 1) as nat);
            let (a, b) = choose|a: int, b: int|
                self.links(a, b) && self.peers[a] == via && self.peers[b] == to;
        }
    }

    /// Distances between positions are distances between the peers at them.
    proof fn lemma_distance_same(&self, i: int, j: int, d: nat)
        requires
            self.shape(),
            0 <= i < self.peers.len(),
            0 <= j < self.peers.len(),
        ensures
            is_distance(self.index_edges(), i, j, d) == is_distance(
                self@,
                self.peers[i],
                self.peers[j],
                d,
            ),
    {
        let e = self.index_edges();
        if is_distance(e, i, j, d) {
            self.lemma_walk_up(i, j, d);
            assert forall|k: nat| k < d implies !walk(self@, self.peers[i], self.peers[j], k) by {
                if walk(self@, self.peers[i], self.peers[j], k) {
                    let j2 = self.lemma_walk_down(i, self.peers[j], k);
                    assert(j2 == j);
                }
            }
        }
        if is_distance(self@, self.peers[i], self.peers[j], d) {
            let j2 = self.lemma_walk_down(i, self.peers[j], d);
            assert(j2 == j);
            assert forall|k: nat| k < d implies !walk(e, i, j, k) by {
                if walk(e, i, j, k) {
                    self.lemma_walk_up(i, j, k);
                }
            }
        }
    }

    /// First hops between positions are first hops between the peers at
    /// them.
    proof fn lemma_first_hop_same(&self, s: int, h: int, w: int)
        requires
            self.shape(),
            0 <= s < self.peers.len(),
            0 <= h < self.peers.len(),
            0 <= w < self.peers.len(),
        ensures
            is_first_hop(self.index_edges(), s, h, w) == is_first_hop(
                self@,
                self.peers[s],
                self.peers[h],
                self.peers[w],
            ),
    {
        let e = self.index_edges();
        let (ps, ph, pw) = (self.peers[s], self.peers[h], self.peers[w]);
        self.lemma_view_links(s, h);
        if is_first_hop(e, s, h, w) {
            let d = choose|d: nat| #[trigger]
                is_distance(e, s, w, d) && d >= 1 && e.contains((s, h)) && walk(
                    e,
                    h,
                    w,
                    (d - 1) as nat,
                );
            self.lemma_distance_same(s, w, d);
            self.lemma_walk_up(h, w, (d - 1) as nat);
            assert(is_distance(self@, ps, pw, d));
        }
        if is_first_hop(self@, ps, ph, pw) {
            let d = choose|d: nat| #[trigger]
                is_distance(self@, ps, pw, d) && d >= 1 && self@.contains((ps, ph)) && walk(
                    self@,
                    ph,
                    pw,
                    (d - 1) as nat,
                );
            self.lemma_distance_same(s, w, d);
            let w2 = self.lemma_walk_down(h, pw, (d - 1) as nat);
            assert(w2 == w);
            assert(e.contains((s, h)));
            assert(is_distance(e, s, w, d));
        }
    }

    /// The peers that a search has noted as first hops to the peer at `w`.
    spec fn noted_hops(&self, s: int, st: Search, w: int, upto: int) -> Set<PeerId> {
        Set::new(
            |p: PeerId|
                exists|t: int| 0 <= t < upto && #[trigger] st.bit(w, t) && self.peers[self.hop(s, t)] == p,
        )
    }

    /// The targets that a search has found among the first `upto` of its
    /// queue.
    spec fn found_targets(&self, st: Search, upto: int) -> Set<PeerId> {
        Set::new(
            |p: PeerId| exists|j: int| 0 <= j < upto && self.peers[#[trigger] st.queue[j] as int] == p,
        )
    }

    /// At the end of a search, what it has noted for a peer are the first
    /// hops from the source to that peer.
    proof fn lemma_noted_hops(&self, s: int, st: Search, i: int)
        requires
            self.search_inv(s, st, st.queue.len() as int),
            0 <= i < st.queue.len(),
        ensures
            self.noted_hops(s, st, st.queue[i] as int, self.adjacency[s].len() as int)
                == first_hops(self@, self.peers[s], self.peers[st.queue[i] as int]),
    {
        let e = self.index_edges();
        let k = self.adjacency[s].len() as int;
        let w = st.queue[i] as int;
        assert(st.queue[i] < self.peers.len());
        let noted = self.noted_hops(s, st, w, k);
        let hops = first_hops(self@, self.peers[s], self.peers[w]);
        assert forall|p: PeerId| noted.contains(p) == hops.contains(p) by {
            if noted.contains(p) {
                let t = choose|t: int|
                    0 <= t < k && #[trigger] st.bit(w, t) && self.peers[self.hop(s, t)] == p;
                assert(self.adjacency[s][t] < self.peers.len());
                assert(is_first_hop(e, s, self.hop(s, t), w));
                self.lemma_first_hop_same(s, self.hop(s, t), w);
            }
            if hops.contains(p) {
                assert(is_first_hop(self@, self.peers[s], p, self.peers[w]));
                let d = choose|d: nat| #[trigger]
                    is_distance(self@, self.peers[s], self.peers[w], d) && d >= 1
                        && self@.contains((self.peers[s], p)) && walk(
                        self@,
                        p,
                        self.peers[w],
                        (d - 1) as nat,
                    );
                let (a, b) = choose|a: int, b: int|
                    self.links(a, b) && self.peers[a] == self.peers[s] && self.peers[b] == p;
                assert(a == s);
                let t = choose|t: int|
                    0 <= t < self.adjacency[s]@.len() && self.adjacency[s]@[t] == b as usize;
                assert(self.hop(s, t) == b);
                self.lemma_first_hop_same(s, b, w);
                self.lemma_complete(s, st, w, t, st.dist[w].unwrap() as nat);
            }
        }
        assert(noted =~= hops);
    }

    /// At the end of a search, the peers in its queue are those that the
    /// source reaches, but for the source.
    proof fn lemma_found_targets(&self, s: int, st: Search)
        requires
            self.search_inv(s, st, st.queue.len() as int),
        ensures
            self.found_targets(st, st.queue.len() as int) == forwarding(
                self@,
                self.peers[s],
            ).dom(),
    {
        let e = self.index_edges();
        let len = st.queue.len() as int;
        let found = self.found_targets(st, len);
        let dom = forwarding(self@, self.peers[s]).dom();
        assert forall|p: PeerId| found.contains(p) == dom.contains(p) by {
            if found.contains(p) {
                let j = choose|j: int|
                    0 <= j < len && self.peers[#[trigger] st.queue[j] as int] == p;
                let w = st.queue[j] as int;
                assert(st.dist[w] is Some);
                assert(is_distance(e, s, w, st.dist[w].unwrap() as nat));
                self.lemma_walk_up(s, w, st.dist[w].unwrap() as nat);
            }
            if dom.contains(p) {
                let n = choose|n: nat| walk(self@, self.peers[s], p, n);
                let w = self.lemma_walk_down(s, p, n);
                self.lemma_found(s, st, len, w, n);
                assert(st.queue@.contains(w as usize));
                let j = choose|j: int| 0 <= j < st.queue.len() && st.queue[j] == w as usize;
                assert(self.peers[st.queue[j] as int] == p);
            }
        }
        assert(found =~= dom);
    }

    /// The peers noted as first hops to the peer at `w`, each once.
    fn hops_of(&self, s: usize, st: &Search, w: usize) -> (hops: Vec<PeerId>)
        requires
            self.search_inv(s as int, *st, st.queue.len() as int),
            w < self.peers.len(),
        ensures
            hops@.no_duplicates(),
            hops@.to_set() == self.noted_hops(
                s as int,
                *st,
                w as int,
                self.adjacency[s as int].len() as int,
            ),
    {
        let k = self.adjacency[s].len();
        let mut hops: Vec<PeerId> = Vec::new();
        let mut t: usize = 0;
        assert(st.routes[w as int].len() == k);
        while t < k
            invariant
                self.shape(),
                s < self.peers.len(),
                w < st.routes.len(),
                k == self.adjacency[s as int].len(),
                st.routes[w as int].len() == k,
                t <= k,
                hops@.no_duplicates(),
                hops@.to_set() =~= self.noted_hops(s as int, *st, w as int, t as int),
            decreases k - t,
        {
            let ghost before = hops@;
            assert(self.adjacency[s as int][t as int] < self.peers.len());
            if st.routes[w][t] {
                let hop = self.peers[self.adjacency[s][t]];
                assert(!before.contains(hop)) by {
                    if before.contains(hop) {
                        assert(before.to_set().contains(hop));
                        let x = choose|x: int|
                            0 <= x < t && #[trigger] st.bit(w as int, x) && self.peers[self.hop(
                                s as int,
                                x,
                            )] == hop;
                        assert(self.adjacency[s as int][x] < self.peers.len());
                        assert(self.adjacency[s as int]@[x] != self.adjacency[s as int]@[t as int]);
                    }
                }
                hops.push(hop);
                proof {
                    assert forall|p: PeerId|
                        hops@.to_set().contains(p) == self.noted_hops(
                            s as int,
                            *st,
                            w as int,
                            t + 1,
                        ).contains(p) by {
                        if hops@.contains(p) {
                            let i = choose|i: int| 0 <= i < hops@.len() && hops@[i] == p;
                            if i < before.len() {
                                assert(before[i] == p);
                                assert(before.to_set().contains(p));
                                let x = choose|x: int|
                                    0 <= x < t && #[trigger] st.bit(w as int, x)
                                        && self.peers[self.hop(s as int, x)] == p;
                                assert(st.bit(w as int, x));
                            } else {
                                assert(st.bit(w as int, t as int));
                            }
                        }
                        if self.noted_hops(s as int, *st, w as int, t + 1).contains(p) {
                            let x = choose|x: int|
                                0 <= x < t + 1 && #[trigger] st.bit(w as int, x)
                                    && self.peers[self.hop(s as int, x)] == p;
                            if x < t {
                                assert(self.noted_hops(s as int, *st, w as int, t as int).contains(p));
                                assert(before.to_set().contains(p));
                                let i = choose|i: int| 0 <= i < before.len() && before[i] == p;
                                assert(hops@[i] == p);
                            } else {
                                assert(hops@[before.len() as int] == p);
                            }
                        }
                    }
                }
            } else {
                proof {
                    assert forall|p: PeerId|
                        self.noted_hops(s as int, *st, w as int, t as int).contains(p)
                            == self.noted_hops(s as int, *st, w as int, t + 1).contains(p) by {
                        if self.noted_hops(s as int, *st, w as int, t + 1).contains(p) {
                            let x = choose|x: int|
                                0 <= x < t + 1 && #[trigger] st.bit(w as int, x)
                                    && self.peers[self.hop(s as int, x)] == p;
                            assert(x < t);
                        }
                        if self.noted_hops(s as int, *st, w as int, t as int).contains(p) {
                            let x = choose|x: int|
                                0 <= x < t && #[trigger] st.bit(w as int, x) && self.peers[self.hop(
                                    s as int,
                                    x,
                                )] == p;
                            assert(st.bit(w as int, x));
                        }
                    }
                }
            }
            t += 1;
        }
        hops
    }

    /// Computes the forwarding map of the source: for every other peer that
    /// the source reaches, the neighbors of the source that lie on a
    /// shortest path to that peer. Peers that the source does not reach are
    /// left out, and so is the source.
    pub fn calculate_distance(&self) -> (routes: ForwardingMap)
        requires
            self.wf(),
        ensures
            routes.wf(),
            routes@ == forwarding(self@, self.source()),
    {
        match self.position(&self.source) {
            None => {
                let routes = ForwardingMap::new();
                proof {
                    assert forall|p: PeerId| !forwarding(self@, self.source).dom().contains(p) by {
                        if forwarding(self@, self.source).dom().contains(p) {
                            let n = choose|n: nat| walk(self@, self.source, p, n);
                            self.lemma_walk_outside(self.source, p, n);
                        }
                    }
                    assert(routes@ =~= forwarding(self@, self.source));
                }
                routes
            },
            Some(s) => {
                let st = self.search(s);
                let mut routes = ForwardingMap::new();
                let mut i: usize = 0;
                assert(routes@.dom() =~= self.found_targets(st, 0));
                while i < st.queue.len()
                    invariant
                        self.search_inv(s as int, st, st.queue.len() as int),
                        i <= st.queue.len(),
                        routes.wf(),
                        routes@.dom() =~= self.found_targets(st, i as int),
                        forall|j: int|
                            0 <= j < i ==> routes@[self.peers[#[trigger] st.queue[j] as int]]
                                == first_hops(
                                self@,
                                self.peers[s as int],
                                self.peers[st.queue[j] as int],
                            ),
                    decreases st.queue.len() - i,
                {
                    let w = st.queue[i];
                    assert(st.queue[i as int] < self.peers.len());
                    let hops = self.hops_of(s, &st, w);
                    let target = self.peers[w];
                    let ghost before = routes;
                    proof {
                        self.lemma_noted_hops(s as int, st, i as int);
                        if self.found_targets(st, i as int).contains(target) {
                            let j = choose|j: int|
                                0 <= j < i && self.peers[#[trigger] st.queue[j] as int] == target;
                            assert(st.queue[j] < self.peers.len());
                            assert(st.queue@[j] != st.queue@[i as int]);
                        }
                    }
                    routes.insert(target, hops);
                    proof {
                        assert forall|p: PeerId|
                            routes@.dom().contains(p) == self.found_targets(st, i + 1).contains(
                                p,
                            ) by {
                            if self.found_targets(st, i + 1).contains(p) {
                                let j = choose|j: int|
                                    0 <= j < i + 1 && self.peers[#[trigger] st.queue[j] as int]
                                        == p;
                                if j < i {
                                    assert(self.found_targets(st, i as int).contains(p));
                                }
                            }
                            if before@.dom().contains(p) {
                                assert(self.found_targets(st, i as int).contains(p));
                                let j = choose|j: int|
                                    0 <= j < i && self.peers[#[trigger] st.queue[j] as int] == p;
                                assert(self.peers[st.queue[j] as int] == p);
                            }
                            if p == target {
                                assert(self.peers[st.queue[i as int] as int] == p);
                            }
                        }
                        assert forall|j: int| 0 <= j < i + 1 implies routes@[self.peers[
                        #[trigger] st.queue[j] as int]] == first_hops(
                            self@,
                            self.peers[s as int],
                            self.peers[st.queue[j] as int],
                        ) by {
                            if j < i {
                                assert(st.queue[j] < self.peers.len());
                                assert(st.queue@[j] != st.queue@[i as int]);
                                assert(before@[self.peers[st.queue[j] as int]] == first_hops(
                                    self@,
                                    self.peers[s as int],
                                    self.peers[st.queue[j] as int],
                                ));
                            }
                        }
                    }
                    i += 1;
                }
                proof {
                    self.lemma_found_targets(s as int, st);
                    let want = forwarding(self@, self.source);
                    assert forall|p: PeerId| routes@.dom().contains(p) implies routes@[p]
                        == want[p] by {
                        let j = choose|j: int|
                            0 <= j < st.queue.len() && self.peers[#[trigger] st.queue[j] as int]
                                == p;
                        assert(routes@[self.peers[st.queue[j] as int]] == first_hops(
                            self@,
                            self.peers[s as int],
                            self.peers[st.queue[j] as int],
                        ));
                    }
                    assert(routes@ =~= want);
                }
                routes
            },
        }
    }
}

/// The forwarding map is a matter of the connections and the source
/// alone: two graphs with the same connections and the same source have
/// the same forwarding map, in whatever order their edges came.
pub proof fn lemma_routes_determined(
    one: Graph,
    other: Graph,
    routes_one: ForwardingMap,
    routes_other: ForwardingMap,
)
    requires
        one@ == other@,
        one.source() == other.source(),
        routes_one@ == forwarding(one@, one.source()),
        routes_other@ == forwarding(other@, other.source()),
    ensures
        routes_one@ == routes_other@,
{
}

/// The position of `value` in `list`.
fn index_in(list: &Vec<usize>, value: usize) -> (found: Option<usize>)
    ensures
        match found {
            Some(k) => k < list.len() && list[k as int] == value,
            None => !list@.contains(value),
        },
{
    let mut k: usize = 0;
    while k < list.len()
        invariant
            k <= list.len(),
            forall|m: int| 0 <= m < k ==> list[m] != value,
        decreases list.len() - k,
    {
        if list[k] == value {
            return Some(k);
        }
        k += 1;
    }
    None
}

} // verus!
