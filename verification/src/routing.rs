//! The routing table: the edges a node knows of, the graph they make, the
//! forwarding map computed from it, and what is needed to pick next hops.

use crate::clock::Clock;
use crate::crypto::PublicKey;
use crate::edge::{canonical_pair, edge_type_of, Edge, EdgeType};
use crate::forwarding::ForwardingMap;
use crate::graph::Graph;
use crate::hash::CryptoHash;
use crate::keyed::KeyedList;
use crate::paths::{
    distance, forwarding, lemma_first_hop_distance, lemma_forwarding_keys, reachable, walk,
};
use crate::route_back::{
    after_get, after_remove, after_set, fits, lookup, HashBytes, PeerBytes, RouteBackCache,
};
use crate::selection::{
    count_of, counts_after, counts_after_picks, is_least_used, is_most_used, least_used,
    lemma_pick_unique, ranks_before, ROUND_ROBIN_MAX_NONCE_DIFFERENCE_ALLOWED,
};
use crate::types::{lemma_peer_order, AnnounceAccount, PeerId, PeerIdOrHash, Ping, Pong};
use std::collections::HashMap;
use vstd::prelude::*;

verus! {

/// The number of entries that the route-back cache holds.
pub const ROUTE_BACK_CACHE_SIZE: usize = 10000;

/// The longest delay, in milliseconds, by which a recalculation is put
/// off.
pub const MAX_RECALCULATION_DELAY: u64 = 1000;

/// Why no route was found.
#[derive(Clone, Copy, Debug, PartialEq, Eq, Structural)]
pub enum FindRouteError {
    /// The target has an entry without first hops.
    Disconnected,
    /// The target was not reached when the forwarding map was computed.
    PeerNotFound,
    /// No announcement is known for the account.
    AccountNotFound,
    /// No route back is known for the hash.
    RouteBackNotFound,
}

/// What became of an edge that was handed to the routing table.
#[derive(Clone, Copy, Debug)]
pub struct ProcessEdgeResult {
    /// Whether the edge was news: it is newer than what was known of its
    /// two peers.
    pub new_edge: bool,
    /// The delay in milliseconds after which the forwarding map is to be
    /// recalculated, where this edge has scheduled a recalculation.
    pub schedule_computation: Option<u64>,
}

/// A snapshot of a routing table.
pub struct RoutingTableInfo {
    /// For each known account the peer that serves it.
    pub account_peers: KeyedList<String, PeerId>,
    /// The forwarding map.
    pub peer_forwarding: ForwardingMap,
}

/// When a recalculation was scheduled and by how much it was put off,
/// both in milliseconds.
#[derive(Clone, Copy)]
pub struct Schedule {
    pub since: u128,
    pub delay: u64,
}

/// What a routing table holds.
pub struct RoutingView {
    /// The peer whose table this is.
    pub source: PeerId,
    /// The announcements, by account.
    pub accounts: Map<Seq<char>, AnnounceAccount>,
    /// The forwarding map as last computed.
    pub forwarding: Map<PeerId, Set<PeerId>>,
    /// The connections from which the forwarding map was last computed.
    pub routed: Set<(PeerId, PeerId)>,
    /// The latest edge of each pair of peers.
    pub edges: Map<(PeerId, PeerId), Edge>,
    /// The routes back, the most recently used first.
    pub route_back: Seq<(HashBytes, PeerBytes)>,
    /// The connections that are up.
    pub graph: Set<(PeerId, PeerId)>,
    /// How often each peer was picked as next hop.
    pub route_nonce: Map<PeerId, usize>,
    /// The recalculation that is pending.
    pub schedule: Option<Schedule>,
    /// The pings seen, by nonce, once one was seen.
    pub pings: Option<Map<usize, Ping>>,
    /// The pongs seen, by nonce, once one was seen.
    pub pongs: Option<Map<usize, Pong>>,
}

/// Every stored edge is authentic and stored under its own pair of peers.
pub open spec fn edges_valid(edges: Map<(PeerId, PeerId), Edge>) -> bool {
    forall|pair: (PeerId, PeerId)| #[trigger]
        edges.dom().contains(pair) ==> edges[pair].is_valid() && (edges[pair].peer0, edges[pair].peer1)
            == pair
}

/// The nonce of the latest edge between a pair of peers; 0 where none is
/// known.
pub open spec fn nonce_of(edges: Map<(PeerId, PeerId), Edge>, pair: (PeerId, PeerId)) -> u64 {
    if edges.dom().contains(pair) {
        edges[pair].nonce
    } else {
        0
    }
}

/// Two peers are connected exactly when the latest edge between them adds
/// the connection.
pub open spec fn graph_matches(
    graph: Set<(PeerId, PeerId)>,
    edges: Map<(PeerId, PeerId), Edge>,
) -> bool {
    forall|a: PeerId, b: PeerId| #[trigger]
        graph.contains((a, b)) <==> edge_type_of(nonce_of(edges, canonical_pair(a, b)))
            == EdgeType::Added
}

/// Every announcement is stored under its own account.
pub open spec fn accounts_keyed(accounts: Map<Seq<char>, AnnounceAccount>) -> bool {
    forall|id: Seq<char>| #[trigger] accounts.dom().contains(id) ==> accounts[id].account_id@ == id
}

/// What holds of a routing table at all times.
pub open spec fn consistent(v: RoutingView) -> bool {
    &&& v.forwarding == forwarding(v.routed, v.source)
    &&& edges_valid(v.edges)
    &&& graph_matches(v.graph, v.edges)
    &&& forall|a: PeerId, b: PeerId| v.graph.contains((a, b)) == v.graph.contains((b, a))
    &&& fits(v.route_back, ROUTE_BACK_CACHE_SIZE as nat)
    &&& accounts_keyed(v.accounts)
}

/// The routing table of a node.
pub struct RoutingTable {
    /// The announcement of each known account.
    account_peers: KeyedList<String, AnnounceAccount>,
    /// The first hops of the shortest paths to each peer, as last computed.
    peer_forwarding: ForwardingMap,
    /// The connections from which `peer_forwarding` was computed.
    routed: Ghost<Set<(PeerId, PeerId)>>,
    /// The latest edge known of each pair of peers.
    edges_info: KeyedList<(PeerId, PeerId), Edge>,
    /// For the hash of a message that awaits a reply, the peer it came
    /// from.
    route_back: RouteBackCache,
    /// The connections that are up.
    raw_graph: Graph,
    /// How often each peer was picked as next hop.
    route_nonce: KeyedList<PeerId, usize>,
    /// The recalculation that is pending.
    recalculation_scheduled: Option<Schedule>,
    /// The pings seen, by nonce.
    ping_info: Option<HashMap<usize, Ping>>,
    /// The pongs seen, by nonce.
    pong_info: Option<HashMap<usize, Pong>>,
    /// The clock by which recalculations are scheduled.
    clock: Clock,
}

impl RoutingTable {
    /// What the table holds.
    pub closed spec fn view(&self) -> RoutingView {
        RoutingView {
            source: self.raw_graph.source(),
            accounts: self.account_peers@,
            forwarding: self.peer_forwarding@,
            routed: self.routed@,
            edges: self.edges_info@,
            route_back: self.route_back@,
            graph: self.raw_graph@,
            route_nonce: self.route_nonce@,
            schedule: self.recalculation_scheduled,
            pings: match self.ping_info {
                Some(pings) => Some(pings@),
                None => None,
            },
            pongs: match self.pong_info {
                Some(pongs) => Some(pongs@),
                None => None,
            },
        }
    }

    /// The table is well formed: its parts are, and it is consistent.
    pub closed spec fn wf(&self) -> bool {
        &&& self.account_peers.wf()
        &&& self.peer_forwarding.wf()
        &&& self.edges_info.wf()
        &&& self.route_back.wf()
        &&& self.route_back.capacity() == ROUTE_BACK_CACHE_SIZE
        &&& self.raw_graph.wf()
        &&& self.route_nonce.wf()
        &&& consistent(self@)
    }

    /// A well-formed table is consistent.
    pub proof fn lemma_consistent(&self)
        requires
            self.wf(),
        ensures
            consistent(self@),
    {
    }

    /// The table of the peer `peer_id`, which knows of no edge, no account
    /// and no route.
    pub fn new(peer_id: PeerId) -> (table: RoutingTable)
        ensures
            table.wf(),
            table@.source == peer_id,
            table@.accounts == Map::<Seq<char>, AnnounceAccount>::empty(),
            table@.forwarding == Map::<PeerId, Set<PeerId>>::empty(),
            table@.routed == Set::<(PeerId, PeerId)>::empty(),
            table@.edges == Map::<(PeerId, PeerId), Edge>::empty(),
            table@.route_back == Seq::<(HashBytes, PeerBytes)>::empty(),
            table@.graph == Set::<(PeerId, PeerId)>::empty(),
            table@.route_nonce == Map::<PeerId, usize>::empty(),
            table@.schedule is None,
            table@.pings is None,
            table@.pongs is None,
    {
        let table = RoutingTable {
            account_peers: KeyedList::new(),
            peer_forwarding: ForwardingMap::new(),
            routed: Ghost(Set::empty()),
            edges_info: KeyedList::new(),
            route_back: RouteBackCache::with_size(ROUTE_BACK_CACHE_SIZE),
            raw_graph: Graph::new(peer_id),
            route_nonce: KeyedList::new(),
            recalculation_scheduled: None,
            ping_info: None,
            pong_info: None,
            clock: Clock::start(),
        };
        proof {
            lemma_forwarding_of_nothing(peer_id);
        }
        table
    }
}

/// Whether the table knows an edge between the same peers that is as new
/// as `edge` or newer.
pub open spec fn is_outdated(v: RoutingView, edge: Edge) -> bool {
    nonce_of(v.edges, (edge.peer0, edge.peer1)) >= edge.nonce
}

/// The delay of a recalculation in milliseconds: the number of targets in
/// the forwarding map, but no more than `MAX_RECALCULATION_DELAY`.
pub open spec fn delay_for(v: RoutingView) -> u64 {
    if v.forwarding.dom().len() < MAX_RECALCULATION_DELAY {
        v.forwarding.dom().len() as u64
    } else {
        MAX_RECALCULATION_DELAY
    }
}

/// The moment, in milliseconds, at which the pending recalculation is
/// due.
pub open spec fn deadline(v: RoutingView) -> Option<int> {
    match v.schedule {
        Some(schedule) => Some(schedule.since + schedule.delay),
        None => None,
    }
}

/// Whether an edge that arrives at `now` schedules a recalculation: none
/// is pending, or the pending one is overdue.
pub open spec fn reschedules(v: RoutingView, now: u128) -> bool {
    match deadline(v) {
        Some(deadline) => now > deadline,
        None => true,
    }
}

/// The connections after `edge` is applied: an addition connects its
/// peers, a removal disconnects them.
pub open spec fn graph_after(graph: Set<(PeerId, PeerId)>, edge: Edge) -> Set<(PeerId, PeerId)> {
    if edge_type_of(edge.nonce) == EdgeType::Added {
        graph.insert((edge.peer0, edge.peer1)).insert((edge.peer1, edge.peer0))
    } else {
        graph.remove((edge.peer0, edge.peer1)).remove((edge.peer1, edge.peer0))
    }
}

/// The table after `edge` has arrived at `now`. An outdated edge changes
/// nothing. Any other edge is stored, changes the graph, and schedules a
/// recalculation unless one is pending and not overdue.
pub open spec fn after_edge(v: RoutingView, edge: Edge, now: u128) -> RoutingView {
    if is_outdated(v, edge) {
        v
    } else {
        RoutingView {
            edges: v.edges.insert((edge.peer0, edge.peer1), edge),
            graph: graph_after(v.graph, edge),
            schedule: if reschedules(v, now) {
                Some(Schedule { since: now, delay: delay_for(v) })
            } else {
                v.schedule
            },
            ..v
        }
    }
}

/// What the table answers to `edge` that has arrived at `now`.
pub open spec fn edge_result(v: RoutingView, edge: Edge, now: u128) -> ProcessEdgeResult {
    if is_outdated(v, edge) {
        ProcessEdgeResult { new_edge: false, schedule_computation: None }
    } else {
        ProcessEdgeResult {
            new_edge: true,
            schedule_computation: if reschedules(v, now) {
                Some(delay_for(v))
            } else {
                None
            },
        }
    }
}

/// The table after a recalculation: the forwarding map is that of the
/// graph as it stands, and no recalculation is pending.
pub open spec fn after_update(v: RoutingView) -> RoutingView {
    RoutingView { forwarding: forwarding(v.graph, v.source), routed: v.graph, schedule: None, ..v }
}

/// The pair under which an authentic edge is stored belongs to its two
/// peers alone, in either order.
pub proof fn lemma_pair_of_edge(edge: Edge, a: PeerId, b: PeerId)
    requires
        edge.peer0.precedes(&edge.peer1),
    ensures
        (canonical_pair(a, b) == (edge.peer0, edge.peer1)) == ((a, b) == (edge.peer0, edge.peer1)
            || (a, b) == (edge.peer1, edge.peer0)),
{
    lemma_peer_order(edge.peer0, edge.peer1, edge.peer0);
    lemma_peer_order(a, b, a);
}

impl RoutingTable {
    /// The nonce of the latest edge known between a pair of peers; 0 where
    /// none is known.
    pub fn find_nonce(&self, edge: &(PeerId, PeerId)) -> (nonce: u64)
        requires
            self.wf(),
        ensures
            nonce == nonce_of(self@.edges, *edge),
    {
        match self.edges_info.get(edge) {
            Some(known) => known.nonce,
            None => 0,
        }
    }

    /// The latest edge known between two peers, given in either order.
    pub fn get_edge(&self, peer0: PeerId, peer1: PeerId) -> (edge: Option<Edge>)
        requires
            self.wf(),
        ensures
            edge == if self@.edges.dom().contains(canonical_pair(peer0, peer1)) {
                Some(self@.edges[canonical_pair(peer0, peer1)])
            } else {
                None::<Edge>
            },
    {
        let key = Edge::key(peer0, peer1);
        match self.edges_info.get(&key) {
            Some(known) => Some(*known),
            None => None,
        }
    }

    /// Takes in an authentic edge that has arrived at the moment `now`,
    /// counted in milliseconds.
    ///
    /// An edge that is no newer than the one known between its peers is
    /// dropped. Any other edge replaces the known one and connects or
    /// disconnects its peers in the graph. The forwarding map is not
    /// recalculated at once: the result says after which delay it should
    /// be, unless an earlier edge has said so and that delay is not over.
    pub fn process_edge_at(&mut self, edge: Edge, now: u128) -> (result: ProcessEdgeResult)
        requires
            old(self).wf(),
            edge.is_valid(),
        ensures
            final(self).wf(),
            final(self)@ == after_edge(old(self)@, edge, now),
            result == edge_result(old(self)@, edge, now),
    {
        let key = edge.get_pair();
        if self.find_nonce(&key) >= edge.nonce {
            return ProcessEdgeResult { new_edge: false, schedule_computation: None };
        }
        match edge.edge_type() {
            EdgeType::Added => {
                self.raw_graph.add_edge(key.0, key.1);
            },
            EdgeType::Removed => {
                self.raw_graph.remove_edge(&key.0, &key.1);
            },
        }
        self.edges_info.insert(key, edge);
        proof {
            self.peer_forwarding.lemma_finite();
        }
        let targets = self.peer_forwarding.len();
        let known_routes: u64 = if targets < 1000 {
            targets as u64
        } else {
            MAX_RECALCULATION_DELAY
        };
        let overdue = match self.recalculation_scheduled {
            Some(schedule) => now > schedule.since && now - schedule.since > schedule.delay as u128,
            None => true,
        };
        let new_schedule = if overdue {
            self.recalculation_scheduled = Some(Schedule { since: now, delay: known_routes });
            Some(known_routes)
        } else {
            None
        };
        proof {
            let want = after_edge(old(self)@, edge, now);
            assert(self@.edges =~= want.edges);
            assert(self@.graph =~= want.graph);
            assert(self@ == want);
            lemma_edge_keeps_consistent(old(self)@, edge, now);
        }
        ProcessEdgeResult { new_edge: true, schedule_computation: new_schedule }
    }

    /// Takes in an authentic edge that arrives now. The contract is that
    /// of `process_edge_at` for the moment that the clock of the table
    /// shows.
    pub fn process_edge(&mut self, edge: Edge) -> (result: ProcessEdgeResult)
        requires
            old(self).wf(),
            edge.is_valid(),
        ensures
            final(self).wf(),
            exists|now: u128|
                final(self)@ == after_edge(old(self)@, edge, now) && result == #[trigger] edge_result(
                    old(self)@,
                    edge,
                    now,
                ),
    {
        let now = self.clock.now();
        self.process_edge_at(edge, now)
    }

    /// Checks an edge and, if it is authentic, takes it in as
    /// `process_edge` does. An edge that is not authentic changes nothing.
    pub fn verify_and_process_edge(&mut self, edge: Edge) -> (result: Option<ProcessEdgeResult>)
        requires
            old(self).wf(),
        ensures
            final(self).wf(),
            match result {
                Some(result) => edge.is_valid() && exists|now: u128|
                    final(self)@ == after_edge(old(self)@, edge, now) && result
                        == #[trigger] edge_result(old(self)@, edge, now),
                None => !edge.is_valid() && final(self)@ == old(self)@,
            },
    {
        if edge.verify() {
            Some(self.process_edge(edge))
        } else {
            None
        }
    }

    /// Recalculates the forwarding map from the graph as it stands.
    pub fn update(&mut self)
        requires
            old(self).wf(),
        ensures
            final(self).wf(),
            final(self)@ == after_update(old(self)@),
    {
        self.recalculation_scheduled = None;
        self.peer_forwarding = self.raw_graph.calculate_distance();
        self.routed = Ghost(self.raw_graph@);
    }
}

/// Whether the use count of the hop that would be picked for `target` can
/// still grow.
pub open spec fn has_room(v: RoutingView, target: PeerId) -> bool {
    v.forwarding.dom().contains(target) ==> count_of(
        v.route_nonce,
        least_used(v.route_nonce, v.forwarding[target]),
    ) < usize::MAX
}

/// The next hop for a message to `target`: the first in the order of
/// picking among the first hops that the forwarding map holds for it.
pub open spec fn route_to(v: RoutingView, target: PeerId) -> Result<PeerId, FindRouteError> {
    if v.forwarding.dom().contains(target) {
        Ok(least_used(v.route_nonce, v.forwarding[target]))
    } else {
        Err(FindRouteError::PeerNotFound)
    }
}

/// The table after a next hop was picked for a message to `target`.
pub open spec fn after_route_to(v: RoutingView, target: PeerId) -> RoutingView {
    if v.forwarding.dom().contains(target) {
        RoutingView { route_nonce: counts_after(v.route_nonce, v.forwarding[target]), ..v }
    } else {
        v
    }
}

/// The peer whose key bytes a route back holds.
pub open spec fn peer_of(bytes: PeerBytes) -> PeerId {
    PeerId(PublicKey { data: bytes })
}

/// The peer to which the reply to the message with hash `hash` goes.
pub open spec fn route_back_to(v: RoutingView, hash: CryptoHash) -> Result<PeerId, FindRouteError> {
    match lookup(v.route_back, hash.0) {
        Some(bytes) => Ok(peer_of(bytes)),
        None => Err(FindRouteError::RouteBackNotFound),
    }
}

/// The table after the route back for `hash` was used: it is gone.
pub open spec fn after_route_back(v: RoutingView, hash: CryptoHash) -> RoutingView {
    RoutingView { route_back: after_remove(v.route_back, hash.0), ..v }
}

/// The table after `announce` has arrived: the first announcement of an
/// account is kept, a later one changes nothing.
pub open spec fn after_account(v: RoutingView, announce: AnnounceAccount) -> RoutingView {
    if v.accounts.dom().contains(announce.account_id@) {
        v
    } else {
        RoutingView { accounts: v.accounts.insert(announce.account_id@, announce), ..v }
    }
}

/// Whether the table holds an announcement that says what `announce`
/// says.
pub open spec fn holds_account(v: RoutingView, announce: AnnounceAccount) -> bool {
    v.accounts.dom().contains(announce.account_id@) && v.accounts[announce.account_id@]@
        == announce@
}

/// The pings or pongs after one with `nonce` was seen: the first one seen
/// with a nonce is kept.
pub open spec fn after_seen<T>(seen: Option<Map<usize, T>>, nonce: usize, item: T) -> Option<
    Map<usize, T>,
> {
    let before = match seen {
        Some(seen) => seen,
        None => Map::empty(),
    };
    if before.dom().contains(nonce) {
        Some(before)
    } else {
        Some(before.insert(nonce, item))
    }
}

impl RoutingTable {
    /// The peer whose table this is.
    pub fn source(&self) -> (source: PeerId)
        ensures
            source == self@.source,
    {
        self.raw_graph.source()
    }

    /// The forwarding map as it was last computed.
    pub fn peer_forwarding(&self) -> (map: &ForwardingMap)
        requires
            self.wf(),
        ensures
            map.wf(),
            map@ == self@.forwarding,
    {
        &self.peer_forwarding
    }

    /// Whether the two peers are connected in the graph.
    pub fn is_connected(&self, peer0: &PeerId, peer1: &PeerId) -> (connected: bool)
        requires
            self.wf(),
        ensures
            connected == self@.graph.contains((*peer0, *peer1)),
    {
        self.raw_graph.contains_edge(peer0, peer1)
    }

    /// The recalculation that is pending.
    pub fn recalculation_scheduled(&self) -> (pending: Option<Schedule>)
        ensures
            pending == self@.schedule,
    {
        self.recalculation_scheduled
    }

    /// How often `peer` was picked as next hop.
    pub fn route_nonce(&self, peer: &PeerId) -> (count: usize)
        requires
            self.wf(),
        ensures
            count == count_of(self@.route_nonce, *peer),
    {
        self.use_count(peer)
    }

    /// How often `peer` was picked as next hop.
    fn use_count(&self, peer: &PeerId) -> (count: usize)
        requires
            self.route_nonce.wf(),
        ensures
            count == count_of(self.route_nonce@, *peer),
    {
        match self.route_nonce.get(peer) {
            Some(count) => *count,
            None => 0,
        }
    }

    /// The first and the last of `routes` in the order of picking.
    fn pick(&self, routes: &Vec<PeerId>) -> (picked: (PeerId, PeerId))
        requires
            self.route_nonce.wf(),
            routes.len() > 0,
        ensures
            is_least_used(self.route_nonce@, routes@.to_set(), picked.0),
            is_most_used(self.route_nonce@, routes@.to_set(), picked.1),
    {
        let ghost counts = self.route_nonce@;
        let mut low = routes[0];
        let mut low_count = self.use_count(&low);
        let mut high = low;
        let mut high_count = low_count;
        let mut i: usize = 1;
        while i < routes.len()
            invariant
                self.route_nonce.wf(),
                counts == self.route_nonce@,
                1 <= i <= routes.len(),
                low_count == count_of(counts, low),
                high_count == count_of(counts, high),
                exists|j: int| 0 <= j < i && routes[j] == low,
                exists|j: int| 0 <= j < i && routes[j] == high,
                forall|j: int| 0 <= j < i && routes[j] != low ==> ranks_before(counts, low, routes[j]),
                forall|j: int|
                    0 <= j < i && routes[j] != high ==> ranks_before(counts, routes[j], high),
            decreases routes.len() - i,
        {
            let hop = routes[i];
            let count = self.use_count(&hop);
            let ghost old_low = low;
            let ghost old_high = high;
            if count < low_count || (count == low_count && hop.lt(&low)) {
                low = hop;
                low_count = count;
            }
            if count > high_count || (count == high_count && high.lt(&hop)) {
                high = hop;
                high_count = count;
            }
            proof {
                assert forall|j: int| 0 <= j < i + 1 && routes[j] != low implies ranks_before(
                    counts,
                    low,
                    routes[j],
                ) by {
                    lemma_peer_order(low, old_low, routes[j]);
                    lemma_peer_order(hop, old_low, hop);
                }
                assert forall|j: int| 0 <= j < i + 1 && routes[j] != high implies ranks_before(
                    counts,
                    routes[j],
                    high,
                ) by {
                    lemma_peer_order(routes[j], old_high, high);
                    lemma_peer_order(hop, old_high, hop);
                }
            }
            i += 1;
        }
        proof {
            assert forall|other: PeerId|
                routes@.to_set().contains(other) && other != low implies ranks_before(
                counts,
                low,
                other,
            ) by {
                let j = choose|j: int| 0 <= j < routes@.len() && routes@[j] == other;
                assert(routes[j] == other);
            }
            assert forall|other: PeerId|
                routes@.to_set().contains(other) && other != high implies ranks_before(
                counts,
                other,
                high,
            ) by {
                let j = choose|j: int| 0 <= j < routes@.len() && routes@[j] == other;
                assert(routes[j] == other);
            }
            let j = choose|j: int| 0 <= j < i && routes[j] == low;
            assert(routes@[j] == low);
            let j = choose|j: int| 0 <= j < i && routes[j] == high;
            assert(routes@[j] == high);
        }
        (low, high)
    }

    /// Whether every use count can still grow, so that a next hop can be
    /// picked for any target.
    pub fn counts_have_room(&self) -> (room: bool)
        requires
            self.wf(),
        ensures
            room == forall|peer: PeerId| count_of(self@.route_nonce, peer) < usize::MAX,
            room ==> forall|target: PeerId| has_room(self@, target),
    {
        let mut i: usize = 0;
        while i < self.route_nonce.len()
            invariant
                self.route_nonce.wf(),
                i <= self.route_nonce.len(),
                forall|j: int| 0 <= j < i ==> self.route_nonce.values()[j] < usize::MAX,
            decreases self.route_nonce.len() - i,
        {
            if *self.route_nonce.value_at(i) == usize::MAX {
                proof {
                    self.route_nonce.lemma_entry(i as int);
                    let full = self.route_nonce.key_views()[i as int];
                    assert(count_of(self@.route_nonce, full) == usize::MAX);
                }
                return false;
            }
            i += 1;
        }
        proof {
            assert forall|peer: PeerId| count_of(self.route_nonce@, peer) < usize::MAX by {
                if self.route_nonce@.dom().contains(peer) {
                    self.route_nonce.lemma_place(peer);
                }
            }
        }
        true
    }

    /// Picks the next hop for a message to `peer_id`: of the first hops
    /// that the forwarding map holds for it, the one least used so far,
    /// and of several such the smallest peer. The use count of the hop
    /// grows by one; where it lay more than
    /// `ROUND_ROBIN_MAX_NONCE_DIFFERENCE_ALLOWED` below that of the most
    /// used hop, it is first raised to that distance.
    ///
    /// Fails with `PeerNotFound`, and changes nothing, where the
    /// forwarding map holds nothing for `peer_id`.
    pub fn find_route_from_peer_id(&mut self, peer_id: &PeerId) -> (result: Result<
        PeerId,
        FindRouteError,
    >)
        requires
            old(self).wf(),
            has_room(old(self)@, *peer_id),
        ensures
            final(self).wf(),
            final(self)@ == after_route_to(old(self)@, *peer_id),
            result == route_to(old(self)@, *peer_id),
    {
        let (low, high) = match self.peer_forwarding.get(peer_id) {
            Some(routes) => {
                if routes.len() == 0 {
                    proof {
                        lemma_forwarding_keys(self@.routed, self@.source, *peer_id);
                        let hop = choose|hop: PeerId|
                            forwarding(self@.routed, self@.source)[*peer_id].contains(hop);
                        assert(routes@.to_set().contains(hop));
                    }
                    return Err(FindRouteError::Disconnected);
                }
                self.pick(routes)
            },
            None => {
                return Err(FindRouteError::PeerNotFound);
            },
        };
        proof {
            lemma_pick_unique(self@.route_nonce, self@.forwarding[*peer_id], low);
            lemma_pick_unique(self@.route_nonce, self@.forwarding[*peer_id], high);
        }
        let low_count = self.use_count(&low);
        let high_count = self.use_count(&high);
        let base = if high_count > ROUND_ROBIN_MAX_NONCE_DIFFERENCE_ALLOWED && low_count < high_count
            - ROUND_ROBIN_MAX_NONCE_DIFFERENCE_ALLOWED {
            high_count - ROUND_ROBIN_MAX_NONCE_DIFFERENCE_ALLOWED
        } else {
            low_count
        };
        self.route_nonce.insert(low, base + 1);
        Ok(low)
    }
}

impl RoutingTable {
    /// Finds where to send a message next: towards a peer as
    /// `find_route_from_peer_id` does, or back to the peer that delivered
    /// the message with the given hash. A route back serves once: it is
    /// taken out when it is found.
    pub fn find_route(&mut self, target: &PeerIdOrHash) -> (result: Result<PeerId, FindRouteError>)
        requires
            old(self).wf(),
            match *target {
                PeerIdOrHash::PeerId(peer_id) => has_room(old(self)@, peer_id),
                PeerIdOrHash::Hash(_) => true,
            },
        ensures
            final(self).wf(),
            match *target {
                PeerIdOrHash::PeerId(peer_id) => final(self)@ == after_route_to(
                    old(self)@,
                    peer_id,
                ) && result == route_to(old(self)@, peer_id),
                PeerIdOrHash::Hash(hash) => final(self)@ == after_route_back(old(self)@, hash)
                    && result == route_back_to(old(self)@, hash),
            },
    {
        match target {
            PeerIdOrHash::PeerId(peer_id) => self.find_route_from_peer_id(peer_id),
            PeerIdOrHash::Hash(hash) => match self.fetch_route_back(*hash) {
                Some(peer) => Ok(peer),
                None => Err(FindRouteError::RouteBackNotFound),
            },
        }
    }

    /// Notes that the message with hash `hash` came from `peer_id`, so
    /// that the reply can go back there. Where the cache of routes back
    /// is full, the route that was used least recently is given up.
    pub fn add_route_back(&mut self, hash: CryptoHash, peer_id: PeerId)
        requires
            old(self).wf(),
        ensures
            final(self).wf(),
            final(self)@ == (RoutingView {
                route_back: after_set(
                    old(self)@.route_back,
                    hash.0,
                    peer_id.0.data,
                    ROUTE_BACK_CACHE_SIZE as nat,
                ),
                ..old(self)@
            }),
    {
        self.route_back.set(hash.0, peer_id.0.data);
    }

    /// Takes out the route back for `hash` and returns its peer.
    fn fetch_route_back(&mut self, hash: CryptoHash) -> (peer: Option<PeerId>)
        requires
            old(self).wf(),
        ensures
            final(self).wf(),
            final(self)@ == after_route_back(old(self)@, hash),
            match peer {
                Some(peer) => route_back_to(old(self)@, hash) == Ok::<PeerId, FindRouteError>(peer),
                None => route_back_to(old(self)@, hash) is Err,
            },
    {
        match self.route_back.remove(&hash.0) {
            Some(bytes) => Some(PeerId(PublicKey { data: bytes })),
            None => None,
        }
    }

    /// Whether the route back for `hash` leads to `peer_id`. The look
    /// counts as a use of the route, which stays.
    pub fn compare_route_back(&mut self, hash: CryptoHash, peer_id: &PeerId) -> (same: bool)
        requires
            old(self).wf(),
        ensures
            final(self).wf(),
            final(self)@ == (RoutingView {
                route_back: after_get(old(self)@.route_back, hash.0),
                ..old(self)@
            }),
            same == (route_back_to(old(self)@, hash) == Ok::<PeerId, FindRouteError>(*peer_id)),
    {
        match self.route_back.get(&hash.0) {
            Some(bytes) => PeerId(PublicKey { data: bytes }) == *peer_id,
            None => false,
        }
    }

    /// The peer that serves the account `account_id`.
    pub fn account_owner(&self, account_id: &String) -> (owner: Result<PeerId, FindRouteError>)
        requires
            self.wf(),
        ensures
            owner == if self@.accounts.dom().contains(account_id@) {
                Ok::<PeerId, FindRouteError>(self@.accounts[account_id@].peer_id)
            } else {
                Err::<PeerId, FindRouteError>(FindRouteError::AccountNotFound)
            },
    {
        match self.account_peers.get(account_id) {
            Some(announce) => Ok(announce.peer_id),
            None => Err(FindRouteError::AccountNotFound),
        }
    }

    /// Takes in the announcement of an account. The first announcement
    /// of an account is stored. A later one is not: the result says
    /// whether it agrees with the stored one. So the result is false
    /// exactly when the announcement contradicts what is known.
    pub fn add_account(&mut self, announce_account: AnnounceAccount) -> (agrees: bool)
        requires
            old(self).wf(),
        ensures
            final(self).wf(),
            final(self)@ == after_account(old(self)@, announce_account),
            agrees == holds_account(final(self)@, announce_account),
            agrees == (!old(self)@.accounts.dom().contains(announce_account.account_id@)
                || holds_account(old(self)@, announce_account)),
    {
        match self.account_peers.get(&announce_account.account_id) {
            Some(known) => known.same_as(&announce_account),
            None => {
                let account_id = announce_account.account_id.clone();
                self.account_peers.insert(account_id, announce_account);
                true
            },
        }
    }

    /// Whether the table holds an announcement that says what
    /// `announce_account` says.
    pub fn contains_account(&self, announce_account: AnnounceAccount) -> (found: bool)
        requires
            self.wf(),
        ensures
            found == holds_account(self@, announce_account),
    {
        match self.account_peers.get(&announce_account.account_id) {
            Some(known) => known.same_as(&announce_account),
            None => false,
        }
    }

    /// Notes a ping; of several pings with one nonce the first is kept.
    pub fn add_ping(&mut self, ping: Ping)
        requires
            old(self).wf(),
        ensures
            final(self).wf(),
            final(self)@ == (RoutingView {
                pings: after_seen(old(self)@.pings, ping.nonce, ping),
                ..old(self)@
            }),
    {
        let mut taken: Option<HashMap<usize, Ping>> = None;
        core::mem::swap(&mut self.ping_info, &mut taken);
        let mut pings = match taken {
            Some(pings) => pings,
            None => HashMap::new(),
        };
        if !pings.contains_key(&ping.nonce) {
            pings.insert(ping.nonce, ping);
        }
        self.ping_info = Some(pings);
    }

    /// Notes a pong; of several pongs with one nonce the first is kept.
    pub fn add_pong(&mut self, pong: Pong)
        requires
            old(self).wf(),
        ensures
            final(self).wf(),
            final(self)@ == (RoutingView {
                pongs: after_seen(old(self)@.pongs, pong.nonce, pong),
                ..old(self)@
            }),
    {
        let mut taken: Option<HashMap<usize, Pong>> = None;
        core::mem::swap(&mut self.pong_info, &mut taken);
        let mut pongs = match taken {
            Some(pongs) => pongs,
            None => HashMap::new(),
        };
        if !pongs.contains_key(&pong.nonce) {
            pongs.insert(pong.nonce, pong);
        }
        self.pong_info = Some(pongs);
    }

    /// The pings and pongs seen so far, by nonce.
    pub fn fetch_ping_pong(&self) -> (seen: (HashMap<usize, Ping>, HashMap<usize, Pong>))
        requires
            self.wf(),
        ensures
            seen.0@ == match self@.pings {
                Some(pings) => pings,
                None => Map::<usize, Ping>::empty(),
            },
            seen.1@ == match self@.pongs {
                Some(pongs) => pongs,
                None => Map::<usize, Pong>::empty(),
            },
    {
        let pings = match &self.ping_info {
            Some(pings) => pings.clone(),
            None => HashMap::new(),
        };
        let pongs = match &self.pong_info {
            Some(pongs) => pongs.clone(),
            None => HashMap::new(),
        };
        (pings, pongs)
    }
}

impl RoutingTable {
    /// The latest edge of every pair of peers, each once.
    pub fn get_edges(&self) -> (edges: Vec<Edge>)
        requires
            self.wf(),
        ensures
            edges@.len() == self@.edges.dom().len(),
            forall|pair: (PeerId, PeerId)| #[trigger]
                self@.edges.dom().contains(pair) ==> edges@.contains(self@.edges[pair]),
            forall|i: int|
                0 <= i < edges@.len() ==> self@.edges.dom().contains(
                    ((#[trigger] edges@[i]).peer0, edges@[i].peer1),
                ) && self@.edges[(edges@[i].peer0, edges@[i].peer1)] == edges@[i],
    {
        let mut edges: Vec<Edge> = Vec::new();
        let mut i: usize = 0;
        while i < self.edges_info.len()
            invariant
                self.edges_info.wf(),
                i <= self.edges_info.len(),
                edges@.len() == i,
                forall|j: int| 0 <= j < i ==> edges@[j] == self.edges_info.values()[j],
            decreases self.edges_info.len() - i,
        {
            edges.push(*self.edges_info.value_at(i));
            i += 1;
        }
        proof {
            self.edges_info.lemma_finite();
            assert forall|pair: (PeerId, PeerId)| #[trigger]
                self@.edges.dom().contains(pair) implies edges@.contains(self@.edges[pair]) by {
                self.edges_info.lemma_place(pair);
                assert(edges@[self.edges_info.place(pair)] == self@.edges[pair]);
            }
            assert forall|i: int| 0 <= i < edges@.len() implies self@.edges.dom().contains(
                ((#[trigger] edges@[i]).peer0, edges@[i].peer1),
            ) && self@.edges[(edges@[i].peer0, edges@[i].peer1)] == edges@[i] by {
                self.edges_info.lemma_entry(i);
                assert(self@.edges.dom().contains(self.edges_info.key_views()[i]));
            }
        }
        edges
    }

    /// The announcement of every known account, each once.
    pub fn get_accounts(&self) -> (accounts: Vec<AnnounceAccount>)
        requires
            self.wf(),
        ensures
            accounts@.len() == self@.accounts.dom().len(),
            forall|id: Seq<char>| #[trigger]
                self@.accounts.dom().contains(id) ==> exists|i: int|
                    0 <= i < accounts@.len() && (#[trigger] accounts@[i])@ == self@.accounts[id]@,
            forall|i: int|
                0 <= i < accounts@.len() ==> holds_account(self@, #[trigger] accounts@[i]),
    {
        let mut accounts: Vec<AnnounceAccount> = Vec::new();
        let mut i: usize = 0;
        while i < self.account_peers.len()
            invariant
                self.account_peers.wf(),
                i <= self.account_peers.len(),
                accounts@.len() == i,
                forall|j: int| 0 <= j < i ==> (#[trigger] accounts@[j])@
                    == self.account_peers.values()[j]@,
            decreases self.account_peers.len() - i,
        {
            let ghost before = accounts@;
            accounts.push(self.account_peers.value_at(i).duplicate());
            proof {
                assert forall|j: int| 0 <= j < i + 1 implies (#[trigger] accounts@[j])@
                    == self.account_peers.values()[j]@ by {
                    if j < i {
                        assert(accounts@[j] == before[j]);
                    }
                }
            }
            i += 1;
        }
        proof {
            self.account_peers.lemma_finite();
            assert forall|id: Seq<char>| #[trigger]
                self@.accounts.dom().contains(id) implies exists|i: int|
                0 <= i < accounts@.len() && (#[trigger] accounts@[i])@ == self@.accounts[id]@ by {
                self.account_peers.lemma_place(id);
                assert(accounts@[self.account_peers.place(id)]@ == self@.accounts[id]@);
            }
            assert forall|i: int| 0 <= i < accounts@.len() implies holds_account(
                self@,
                #[trigger] accounts@[i],
            ) by {
                self.account_peers.lemma_entry(i);
                let id = self.account_peers.key_views()[i];
                assert(self@.accounts.dom().contains(id));
                assert(self@.accounts[id].account_id@ == id);
            }
        }
        accounts
    }

    /// A snapshot of the table: for each account the peer that serves it,
    /// and a copy of the forwarding map.
    pub fn info(&self) -> (info: RoutingTableInfo)
        requires
            self.wf(),
        ensures
            info.peer_forwarding.wf(),
            info.peer_forwarding@ == self@.forwarding,
            info.account_peers.wf(),
            info.account_peers@.dom() == self@.accounts.dom(),
            forall|id: Seq<char>| #[trigger]
                self@.accounts.dom().contains(id) ==> info.account_peers@[id]
                    == self@.accounts[id].peer_id,
    {
        let mut account_peers: KeyedList<String, PeerId> = KeyedList::new();
        let mut i: usize = 0;
        while i < self.account_peers.len()
            invariant
                self.account_peers.wf(),
                account_peers.wf(),
                i <= self.account_peers.len(),
                forall|id: Seq<char>|
                    account_peers@.dom().contains(id) <==> exists|j: int|
                        0 <= j < i && #[trigger] self.account_peers.key_views()[j] == id,
                forall|j: int|
                    0 <= j < i ==> account_peers@[#[trigger] self.account_peers.key_views()[j]]
                        == self.account_peers.values()[j].peer_id,
            decreases self.account_peers.len() - i,
        {
            let key = self.account_peers.key_at(i).clone();
            let peer = self.account_peers.value_at(i).peer_id;
            let ghost before = account_peers@;
            account_peers.insert(key, peer);
            proof {
                let views = self.account_peers.key_views();
                assert forall|id: Seq<char>|
                    account_peers@.dom().contains(id) <==> exists|j: int|
                        0 <= j < i + 1 && #[trigger] views[j] == id by {
                    if before.dom().contains(id) {
                        let j = choose|j: int| 0 <= j < i && #[trigger] views[j] == id;
                        assert(views[j] == id);
                    }
                    if id == views[i as int] {
                        assert(views[i as int] == id);
                    }
                    if exists|j: int| 0 <= j < i + 1 && #[trigger] views[j] == id {
                        let j = choose|j: int| 0 <= j < i + 1 && #[trigger] views[j] == id;
                        if j < i {
                            assert(before.dom().contains(id));
                        }
                    }
                }
                assert forall|j: int| 0 <= j < i + 1 implies account_peers@[#[trigger] views[j]]
                    == self.account_peers.values()[j].peer_id by {
                    if j < i {
                        self.account_peers.lemma_distinct(j, i as int);
                    }
                }
            }
            i += 1;
        }
        let peer_forwarding = self.peer_forwarding.duplicate();
        proof {
            let views = self.account_peers.key_views();
            assert forall|id: Seq<char>|
                account_peers@.dom().contains(id) == self@.accounts.dom().contains(id) by {
                if self@.accounts.dom().contains(id) {
                    self.account_peers.lemma_place(id);
                    assert(views[self.account_peers.place(id)] == id);
                }
                if account_peers@.dom().contains(id) {
                    let j = choose|j: int| 0 <= j < i && #[trigger] views[j] == id;
                    self.account_peers.lemma_entry(j);
                }
            }
            assert(account_peers@.dom() =~= self@.accounts.dom());
            assert forall|id: Seq<char>| #[trigger]
                self@.accounts.dom().contains(id) implies account_peers@[id]
                == self@.accounts[id].peer_id by {
                self.account_peers.lemma_place(id);
                let j = self.account_peers.place(id);
                assert(account_peers@[views[j]] == self.account_peers.values()[j].peer_id);
            }
        }
        RoutingTableInfo { account_peers, peer_forwarding }
    }
}

/// The nonce known for a pair of peers never goes down when an edge
/// arrives, and goes up for the pair of an edge that is taken in.
pub proof fn lemma_nonces_grow(v: RoutingView, edge: Edge, now: u128, pair: (PeerId, PeerId))
    ensures
        nonce_of(after_edge(v, edge, now).edges, pair) >= nonce_of(v.edges, pair),
        !is_outdated(v, edge) ==> nonce_of(after_edge(v, edge, now).edges, (edge.peer0, edge.peer1))
            == edge.nonce && edge.nonce > nonce_of(v.edges, (edge.peer0, edge.peer1)),
{
}

/// An edge that arrives a second time is outdated: it changes nothing,
/// whenever it arrives. So to apply an edge twice is to apply it once.
pub proof fn lemma_edge_twice(v: RoutingView, edge: Edge, now: u128, later: u128)
    ensures
        is_outdated(after_edge(v, edge, now), edge),
        after_edge(after_edge(v, edge, now), edge, later) == after_edge(v, edge, now),
        edge_result(after_edge(v, edge, now), edge, later) == (ProcessEdgeResult {
            new_edge: false,
            schedule_computation: None,
        }),
{
}

/// An authentic edge keeps a consistent table consistent: after it, every
/// stored edge is still authentic and stored under its ordered pair of
/// peers, and two peers are connected exactly when their latest edge adds
/// the connection.
pub proof fn lemma_edge_keeps_consistent(v: RoutingView, edge: Edge, now: u128)
    requires
        consistent(v),
        edge.is_valid(),
    ensures
        consistent(after_edge(v, edge, now)),
{
    let after = after_edge(v, edge, now);
    if !is_outdated(v, edge) {
        assert forall|a: PeerId, b: PeerId| #[trigger]
            after.graph.contains((a, b)) <==> edge_type_of(
                nonce_of(after.edges, canonical_pair(a, b)),
            ) == EdgeType::Added by {
            lemma_pair_of_edge(edge, a, b);
            assert(v.graph.contains((a, b)) <==> edge_type_of(
                nonce_of(v.edges, canonical_pair(a, b)),
            ) == EdgeType::Added);
        }
        assert forall|a: PeerId, b: PeerId| after.graph.contains((a, b)) == after.graph.contains(
            (b, a),
        ) by {
            assert(v.graph.contains((a, b)) == v.graph.contains((b, a)));
        }
    }
}

/// In a consistent table every stored edge has its smaller peer first and
/// is authentic, and no more routes back are held than the cache is made
/// for.
pub proof fn lemma_stored_edges(v: RoutingView, pair: (PeerId, PeerId))
    requires
        consistent(v),
        v.edges.dom().contains(pair),
    ensures
        pair.0.precedes(&pair.1),
        v.edges[pair].peer0.precedes(&v.edges[pair].peer1),
        v.edges[pair].is_valid(),
        (edge_type_of(v.edges[pair].nonce) == EdgeType::Added) == v.graph.contains(pair),
        v.route_back.len() <= ROUTE_BACK_CACHE_SIZE,
{
    lemma_peer_order(pair.0, pair.1, pair.0);
    assert(v.graph.contains((pair.0, pair.1)) <==> edge_type_of(
        nonce_of(v.edges, canonical_pair(pair.0, pair.1)),
    ) == EdgeType::Added);
}

/// In a consistent table the source is no target of the forwarding map,
/// and every first hop that the map holds for a target was, when the map
/// was computed, a neighbor of the source and one step nearer to the
/// target than the source.
pub proof fn lemma_forwarding_sound(v: RoutingView, target: PeerId, hop: PeerId)
    requires
        consistent(v),
        v.forwarding.dom().contains(target),
    ensures
        target != v.source,
        reachable(v.routed, v.source, target),
        exists|some: PeerId| v.forwarding[target].contains(some),
        v.forwarding[target].contains(hop) ==> v.routed.contains((v.source, hop)) && distance(
            v.routed,
            v.source,
            target,
        ) == 1 + distance(v.routed, hop, target),
{
    lemma_forwarding_keys(v.routed, v.source, target);
    if v.forwarding[target].contains(hop) {
        lemma_first_hop_distance(v.routed, v.source, hop, target);
    }
}

/// The table after `n` next hops in a row were picked for messages to
/// `target`.
pub open spec fn after_routes_to(v: RoutingView, target: PeerId, n: nat) -> RoutingView
    decreases n,
{
    if n == 0 {
        v
    } else {
        after_route_to(after_routes_to(v, target, (n - 1) as nat), target)
    }
}

/// Next hops picked in a row for one target are picks among the same
/// first hops: nothing but the use counts changes, and they change as
/// `counts_after_picks` says. So what holds of picks among the same hops,
/// that they go round and that use counts are pulled together, holds of
/// the next hops that the table gives out.
pub proof fn lemma_routes_to(v: RoutingView, target: PeerId, n: nat)
    requires
        v.forwarding.dom().contains(target),
    ensures
        after_routes_to(v, target, n) == (RoutingView {
            route_nonce: counts_after_picks(v.route_nonce, v.forwarding[target], n),
            ..v
        }),
        route_to(after_routes_to(v, target, n), target) == Ok::<PeerId, FindRouteError>(
            least_used(counts_after_picks(v.route_nonce, v.forwarding[target], n), v.forwarding[target]),
        ),
    decreases n,
{
    if n > 0 {
        lemma_routes_to(v, target, (n - 1) as nat);
    }
}

impl RoutingTable {
    /// The first hops that the table holds for a target are finitely
    /// many, and one at least.
    pub proof fn lemma_hops(&self, target: PeerId)
        requires
            self.wf(),
            self@.forwarding.dom().contains(target),
        ensures
            self@.forwarding[target].finite(),
            self@.forwarding[target].len() > 0,
    {
        self.peer_forwarding.lemma_hops_finite(target);
        lemma_forwarding_keys(self@.routed, self@.source, target);
        let some = choose|some: PeerId| self@.forwarding[target].contains(some);
        assert(self@.forwarding[target].contains(some));
        if self@.forwarding[target].len() == 0 {
            self@.forwarding[target].lemma_len0_is_empty();
        }
    }
}

/// Without connections nothing is reached, so the forwarding map is empty.
pub proof fn lemma_forwarding_of_nothing(source: PeerId)
    ensures
        forwarding(Set::<(PeerId, PeerId)>::empty(), source) == Map::<PeerId, Set<PeerId>>::empty(),
{
    let nothing = Set::<(PeerId, PeerId)>::empty();
    assert forall|target: PeerId| !forwarding(nothing, source).dom().contains(target) by {
        if forwarding(nothing, source).dom().contains(target) {
            let len = choose|len: nat| walk(nothing, source, target, len);
            if len > 0 {
                let via = choose|via: PeerId|
                    walk(nothing, source, via, (len - 1) as nat) && #[trigger] nothing.contains(
                        (via, target),
                    );
            }
        }
    }
    assert(forwarding(nothing, source) =~= Map::<PeerId, Set<PeerId>>::empty());
}

} // verus!
