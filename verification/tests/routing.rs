use near_network::crypto::{KeyType, PublicKey, SecretKey, Signature};
use near_network::edge::{Edge, EdgeInfo};
use near_network::hash::{hash, CryptoHash};
use near_network::route_back::RouteBackCache;
use near_network::routing::{FindRouteError, RoutingTable, ROUTE_BACK_CACHE_SIZE};
use near_network::types::{AnnounceAccount, PeerId, PeerIdOrHash, Ping, Pong};
use std::collections::HashSet;

fn keys(seed: &str) -> (PeerId, SecretKey) {
    let secret = SecretKey::from_seed(KeyType::ED25519, seed);
    (PeerId::new(secret.public_key()), secret)
}

fn peer(seed: &str) -> PeerId {
    keys(seed).0
}

/// The addition edge between two peers at `nonce`, signed by both.
fn added(a: &str, b: &str, nonce: u64) -> Edge {
    let (a, sk_a) = keys(a);
    let (b, sk_b) = keys(b);
    let info = EdgeInfo::new(a, b, nonce, &sk_a);
    Edge::build_with_secret_key(b, a, nonce, &sk_b, info.signature)
}

fn connect(table: &mut RoutingTable, a: &str, b: &str) {
    let result = table.process_edge_at(added(a, b, 1), 0);
    assert!(result.new_edge);
}

fn hops(table: &RoutingTable, target: &PeerId) -> Option<HashSet<PeerId>> {
    table.peer_forwarding().get(target).map(|hops| hops.iter().cloned().collect())
}

fn set(peers: &[PeerId]) -> HashSet<PeerId> {
    peers.iter().cloned().collect()
}

fn announce(account: &str, owner: &str, epoch: u8) -> AnnounceAccount {
    AnnounceAccount {
        account_id: account.to_string(),
        peer_id: peer(owner),
        epoch_id: CryptoHash([epoch; 32]),
        signature: Signature { data: [epoch; 64] },
    }
}

#[test]
fn new_table_knows_nothing() {
    let mut table = RoutingTable::new(peer("me"));
    assert!(table.source() == peer("me"));
    assert_eq!(table.peer_forwarding().len(), 0);
    assert!(table.get_edges().is_empty());
    assert!(table.get_accounts().is_empty());
    assert!(table.recalculation_scheduled().is_none());
    assert_eq!(table.find_nonce(&(peer("a"), peer("b"))), 0);
    assert!(table.get_edge(peer("a"), peer("b")).is_none());
    assert_eq!(table.route_nonce(&peer("a")), 0);
    assert!(table.counts_have_room());
    assert_eq!(
        table.find_route(&PeerIdOrHash::PeerId(peer("a"))),
        Err(FindRouteError::PeerNotFound)
    );
    assert_eq!(
        table.find_route(&PeerIdOrHash::Hash(hash(b"x"))),
        Err(FindRouteError::RouteBackNotFound)
    );
    assert_eq!(table.account_owner(&"alice.near".to_string()), Err(FindRouteError::AccountNotFound));
    let (pings, pongs) = table.fetch_ping_pong();
    assert!(pings.is_empty() && pongs.is_empty());
}

#[test]
fn process_edge_stores_and_connects() {
    let mut table = RoutingTable::new(peer("me"));
    let edge = added("me", "a", 1);
    let pair = edge.get_pair();
    let result = table.process_edge_at(edge, 5);
    assert!(result.new_edge);
    assert_eq!(result.schedule_computation, Some(0));
    assert_eq!(table.find_nonce(&pair), 1);
    assert!(table.get_edge(peer("a"), peer("me")).unwrap().nonce == 1);
    assert!(table.get_edge(peer("me"), peer("a")).unwrap().verify());
    assert!(table.is_connected(&peer("me"), &peer("a")));
    assert!(table.is_connected(&peer("a"), &peer("me")));
    assert_eq!(table.get_edges().len(), 1);
    // The forwarding map waits for the recalculation.
    assert_eq!(table.peer_forwarding().len(), 0);
    table.update();
    assert_eq!(hops(&table, &peer("a")), Some(set(&[peer("a")])));
    assert!(table.recalculation_scheduled().is_none());
}

#[test]
fn remove_then_replay() {
    let (me, sk_me) = keys("me");
    let mut table = RoutingTable::new(me);
    let edge = added("me", "a", 1);
    let pair = edge.get_pair();
    assert!(table.process_edge_at(edge, 0).new_edge);

    let removed = edge.remove_edge(me, &sk_me);
    assert_eq!(removed.nonce, 2);
    assert!(removed.verify());
    assert!(table.process_edge_at(removed, 1).new_edge);
    assert_eq!(table.find_nonce(&pair), 2);
    assert!(!table.is_connected(&me, &peer("a")));
    assert!(!table.is_connected(&peer("a"), &me));

    let replay = table.process_edge_at(edge, 2);
    assert!(!replay.new_edge);
    assert!(replay.schedule_computation.is_none());
    assert_eq!(table.find_nonce(&pair), 2);
    assert!(!table.is_connected(&me, &peer("a")));
    assert_eq!(table.get_edges().len(), 1);

    // A newer addition brings the connection back.
    assert!(table.process_edge_at(added("a", "me", 3), 3).new_edge);
    assert_eq!(table.find_nonce(&pair), 3);
    assert!(table.is_connected(&me, &peer("a")));
}

#[test]
fn applying_an_edge_twice_is_applying_it_once() {
    let mut table = RoutingTable::new(peer("me"));
    let edge = added("me", "a", 1);
    let first = table.process_edge_at(edge, 10);
    assert!(first.new_edge);
    let pending = table.recalculation_scheduled().map(|s| (s.since, s.delay));
    let second = table.process_edge_at(edge, 5000);
    assert!(!second.new_edge);
    assert!(second.schedule_computation.is_none());
    assert_eq!(table.recalculation_scheduled().map(|s| (s.since, s.delay)), pending);
    assert_eq!(table.find_nonce(&edge.get_pair()), 1);
    assert_eq!(table.get_edges().len(), 1);
    assert!(table.is_connected(&peer("me"), &peer("a")));
}

#[test]
fn nonces_never_go_down() {
    let mut table = RoutingTable::new(peer("me"));
    let pair = added("me", "a", 1).get_pair();
    let mut last = 0;
    for nonce in [5u64, 3, 5, 1, 9, 7, 9, 11] {
        let accepted = table.process_edge_at(added("me", "a", nonce), 0).new_edge;
        assert_eq!(accepted, nonce > last);
        let now = table.find_nonce(&pair);
        assert!(now >= last);
        assert_eq!(now, last.max(nonce));
        last = now;
    }
    assert_eq!(last, 11);
}

#[test]
fn recalculation_is_scheduled_once_until_overdue() {
    let mut table = RoutingTable::new(peer("me"));
    // No target is known: the delay is 0.
    let first = table.process_edge_at(added("me", "a", 1), 100);
    assert_eq!(first.schedule_computation, Some(0));
    assert_eq!(table.recalculation_scheduled().map(|s| (s.since, s.delay)), Some((100, 0)));
    // At the deadline itself the schedule stands.
    let second = table.process_edge_at(added("me", "b", 1), 100);
    assert!(second.new_edge);
    assert!(second.schedule_computation.is_none());
    table.update();
    assert!(table.recalculation_scheduled().is_none());
    assert_eq!(table.peer_forwarding().len(), 2);

    // Two targets are known: the delay is 2 ms.
    let third = table.process_edge_at(added("a", "c", 1), 200);
    assert_eq!(third.schedule_computation, Some(2));
    assert_eq!(table.recalculation_scheduled().map(|s| (s.since, s.delay)), Some((200, 2)));
    let fourth = table.process_edge_at(added("b", "c", 1), 202);
    assert!(fourth.schedule_computation.is_none());
    assert_eq!(table.recalculation_scheduled().map(|s| (s.since, s.delay)), Some((200, 2)));
    // Past the deadline a new one is set.
    let fifth = table.process_edge_at(added("c", "d", 1), 203);
    assert_eq!(fifth.schedule_computation, Some(2));
    assert_eq!(table.recalculation_scheduled().map(|s| (s.since, s.delay)), Some((203, 2)));
}

#[test]
fn process_edge_reads_the_clock() {
    let mut table = RoutingTable::new(peer("me"));
    let first = table.process_edge(added("me", "a", 1));
    assert!(first.new_edge);
    assert_eq!(first.schedule_computation, Some(0));
    assert!(table.recalculation_scheduled().is_some());
    let again = table.process_edge(added("me", "a", 1));
    assert!(!again.new_edge);
    assert!(again.schedule_computation.is_none());
}

#[test]
fn unverified_edges_are_turned_away() {
    let mut table = RoutingTable::new(peer("me"));
    let edge = added("me", "a", 1);
    let forged = Edge { nonce: 3, ..edge };
    assert!(table.verify_and_process_edge(forged).is_none());
    assert!(table.get_edges().is_empty());
    assert!(!table.is_connected(&peer("me"), &peer("a")));
    assert!(table.recalculation_scheduled().is_none());
    let result = table.verify_and_process_edge(edge).unwrap();
    assert!(result.new_edge);
    assert!(table.is_connected(&peer("me"), &peer("a")));
    for stored in table.get_edges() {
        assert!(stored.verify());
        assert!(stored.peer0.lt(&stored.peer1));
    }
}

#[test]
fn stored_edges_match_the_graph() {
    let (me, sk_me) = keys("me");
    let mut table = RoutingTable::new(me);
    connect(&mut table, "me", "a");
    connect(&mut table, "a", "b");
    connect(&mut table, "b", "me");
    let gone = added("me", "a", 1).remove_edge(me, &sk_me);
    assert!(table.process_edge_at(gone, 0).new_edge);
    let edges = table.get_edges();
    assert_eq!(edges.len(), 3);
    for edge in edges {
        assert!(edge.verify());
        assert!(edge.peer0.lt(&edge.peer1));
        let up = edge.nonce % 2 == 1;
        assert_eq!(table.is_connected(&edge.peer0, &edge.peer1), up);
        assert_eq!(table.is_connected(&edge.peer1, &edge.peer0), up);
    }
    assert!(!table.is_connected(&peer("a"), &peer("c")));
}

#[test]
fn forwarding_map_is_a_snapshot() {
    let (me, sk_me) = keys("me");
    let mut table = RoutingTable::new(me);
    connect(&mut table, "me", "a");
    connect(&mut table, "a", "b");
    table.update();
    assert_eq!(hops(&table, &peer("b")), Some(set(&[peer("a")])));
    assert!(hops(&table, &me).is_none());
    let gone = added("me", "a", 1).remove_edge(me, &sk_me);
    assert!(table.process_edge_at(gone, 0).new_edge);
    // Stale until the next recalculation.
    assert_eq!(hops(&table, &peer("b")), Some(set(&[peer("a")])));
    assert_eq!(table.find_route(&PeerIdOrHash::PeerId(peer("b"))), Ok(peer("a")));
    table.update();
    assert_eq!(table.peer_forwarding().len(), 0);
    assert_eq!(
        table.find_route(&PeerIdOrHash::PeerId(peer("b"))),
        Err(FindRouteError::PeerNotFound)
    );
}

#[test]
fn round_robin_among_equal_hops() {
    let mut table = RoutingTable::new(peer("me"));
    let names = ["h0", "h1", "h2"];
    for name in names {
        connect(&mut table, "me", name);
        connect(&mut table, name, "target");
    }
    table.update();
    let target = peer("target");
    assert_eq!(hops(&table, &target), Some(set(&[peer("h0"), peer("h1"), peer("h2")])));
    let mut sorted: Vec<PeerId> = names.iter().map(|name| peer(name)).collect();
    sorted.sort_by(|a, b| a.0.data.cmp(&b.0.data));
    for calls in 1..=10usize {
        let next = table.find_route_from_peer_id(&target).unwrap();
        // Ties go to the smaller peer, so the hops take turns in order.
        assert!(next == sorted[(calls - 1) % 3]);
        for (place, hop) in sorted.iter().enumerate() {
            let times = table.route_nonce(hop);
            assert!(times == calls / 3 || times == (calls + 2) / 3);
            assert_eq!(times, calls / 3 + if place < calls % 3 { 1 } else { 0 });
        }
    }
}

#[test]
fn round_robin_with_clamp() {
    // me - p - t and me - q - t, and u behind q alone.
    let mut table = RoutingTable::new(peer("me"));
    connect(&mut table, "me", "p");
    connect(&mut table, "me", "q");
    connect(&mut table, "q", "u");
    table.update();
    let (p, q, t, u) = (peer("p"), peer("q"), peer("t"), peer("u"));
    for _ in 0..100 {
        assert_eq!(table.find_route_from_peer_id(&u), Ok(q));
    }
    assert_eq!(table.route_nonce(&q), 100);
    assert_eq!(table.route_nonce(&p), 0);
    connect(&mut table, "p", "t");
    connect(&mut table, "q", "t");
    table.update();
    assert_eq!(hops(&table, &t), Some(set(&[p, q])));

    assert_eq!(table.find_route(&PeerIdOrHash::PeerId(t)), Ok(p));
    assert_eq!(table.route_nonce(&p), 91);
    assert_eq!(table.route_nonce(&q), 100);
    assert_eq!(table.find_route(&PeerIdOrHash::PeerId(t)), Ok(p));
    assert_eq!(table.route_nonce(&p), 92);
    for expected in 93..=100usize {
        assert_eq!(table.find_route(&PeerIdOrHash::PeerId(t)), Ok(p));
        assert_eq!(table.route_nonce(&p), expected);
        assert_eq!(table.route_nonce(&q), 100);
    }
    // Level at 100: from here the two take turns, the smaller peer first.
    let (first, second) = if p.lt(&q) { (p, q) } else { (q, p) };
    assert_eq!(table.find_route(&PeerIdOrHash::PeerId(t)), Ok(first));
    assert_eq!(table.find_route(&PeerIdOrHash::PeerId(t)), Ok(second));
    assert_eq!(table.find_route(&PeerIdOrHash::PeerId(t)), Ok(first));
    assert_eq!(table.route_nonce(&first), 102);
    assert_eq!(table.route_nonce(&second), 101);
    assert!(table.counts_have_room());
}

#[test]
fn clamp_applies_above_a_difference_of_ten() {
    let mut table = RoutingTable::new(peer("me"));
    connect(&mut table, "me", "p");
    connect(&mut table, "me", "q");
    connect(&mut table, "q", "u");
    table.update();
    let (p, q, t, u) = (peer("p"), peer("q"), peer("t"), peer("u"));
    for _ in 0..10 {
        assert_eq!(table.find_route_from_peer_id(&u), Ok(q));
    }
    connect(&mut table, "p", "t");
    connect(&mut table, "q", "t");
    table.update();
    // A difference of exactly ten is let be.
    assert_eq!(table.find_route_from_peer_id(&t), Ok(p));
    assert_eq!(table.route_nonce(&p), 1);
    assert_eq!(table.find_route_from_peer_id(&u), Ok(q));
    assert_eq!(table.find_route_from_peer_id(&u), Ok(q));
    // q at 12, p at 1: eleven apart, so p is raised to 2 and then counted.
    assert_eq!(table.find_route_from_peer_id(&t), Ok(p));
    assert_eq!(table.route_nonce(&p), 3);
    assert_eq!(table.route_nonce(&q), 12);
}

#[test]
fn route_back_serves_once() {
    let mut table = RoutingTable::new(peer("me"));
    let h = hash(b"request");
    let x = peer("x");
    table.add_route_back(h, x);
    assert!(table.compare_route_back(h, &x));
    assert!(!table.compare_route_back(h, &peer("y")));
    assert!(!table.compare_route_back(hash(b"other"), &x));
    assert_eq!(table.find_route(&PeerIdOrHash::Hash(h)), Ok(x));
    assert_eq!(table.find_route(&PeerIdOrHash::Hash(h)), Err(FindRouteError::RouteBackNotFound));
    assert!(!table.compare_route_back(h, &x));
}

#[test]
fn route_back_keeps_the_last_peer() {
    let mut table = RoutingTable::new(peer("me"));
    let h = hash(b"request");
    table.add_route_back(h, peer("x"));
    table.add_route_back(hash(b"other"), peer("z"));
    table.add_route_back(h, peer("y"));
    assert!(table.compare_route_back(h, &peer("y")));
    assert_eq!(table.find_route(&PeerIdOrHash::Hash(h)), Ok(peer("y")));
    assert_eq!(table.find_route(&PeerIdOrHash::Hash(hash(b"other"))), Ok(peer("z")));
}

fn numbered(i: usize) -> CryptoHash {
    let mut bytes = [0u8; 32];
    bytes[..8].copy_from_slice(&(i as u64).to_le_bytes());
    CryptoHash(bytes)
}

#[test]
fn route_back_holds_ten_thousand() {
    assert_eq!(ROUTE_BACK_CACHE_SIZE, 10000);
    let mut table = RoutingTable::new(peer("me"));
    let x = peer("x");
    for i in 0..ROUTE_BACK_CACHE_SIZE {
        table.add_route_back(numbered(i), x);
    }
    // All are there; the look at the first makes it the latest used.
    assert!(table.compare_route_back(numbered(0), &x));
    table.add_route_back(numbered(ROUTE_BACK_CACHE_SIZE), x);
    // The least recently used one, the second, has left.
    assert!(!table.compare_route_back(numbered(1), &x));
    assert!(table.compare_route_back(numbered(0), &x));
    assert!(table.compare_route_back(numbered(2), &x));
    assert!(table.compare_route_back(numbered(ROUTE_BACK_CACHE_SIZE), &x));
    let mut found = 0;
    for i in 0..=ROUTE_BACK_CACHE_SIZE {
        if table.find_route(&PeerIdOrHash::Hash(numbered(i))).is_ok() {
            found += 1;
        }
    }
    assert_eq!(found, ROUTE_BACK_CACHE_SIZE);
}

#[test]
fn route_back_cache_evicts_the_least_recently_used() {
    let mut cache = RouteBackCache::with_size(2);
    assert_eq!(cache.set([1; 32], [10; 32]), None);
    assert_eq!(cache.set([2; 32], [20; 32]), None);
    // Setting a key that is there changes its value where it stands.
    assert_eq!(cache.set([1; 32], [11; 32]), Some([10; 32]));
    assert_eq!(cache.set([3; 32], [30; 32]), None);
    assert_eq!(cache.get(&[1; 32]), None);
    assert_eq!(cache.get(&[2; 32]), Some([20; 32]));
    // The look has made 2 the latest used: 3 leaves next.
    assert_eq!(cache.set([4; 32], [40; 32]), None);
    assert_eq!(cache.get(&[3; 32]), None);
    assert_eq!(cache.remove(&[2; 32]), Some([20; 32]));
    assert_eq!(cache.remove(&[2; 32]), None);
    assert_eq!(cache.get(&[4; 32]), Some([40; 32]));
}

#[test]
fn account_conflict() {
    let mut table = RoutingTable::new(peer("me"));
    let first = announce("alice.near", "a", 1);
    let second = announce("alice.near", "b", 2);
    assert!(table.add_account(first.clone()));
    assert!(table.contains_account(first.clone()));
    assert!(!table.contains_account(second.clone()));
    assert!(!table.add_account(second.clone()));
    assert_eq!(table.account_owner(&"alice.near".to_string()), Ok(peer("a")));
    assert!(table.contains_account(first.clone()));
    assert!(!table.contains_account(second));
    // The same announcement again is no conflict.
    assert!(table.add_account(first));
    assert_eq!(table.get_accounts().len(), 1);
}

#[test]
fn accounts_are_kept_apart() {
    let mut table = RoutingTable::new(peer("me"));
    assert!(table.add_account(announce("alice.near", "a", 1)));
    assert!(table.add_account(announce("bob.near", "b", 1)));
    assert_eq!(table.account_owner(&"alice.near".to_string()), Ok(peer("a")));
    assert_eq!(table.account_owner(&"bob.near".to_string()), Ok(peer("b")));
    assert_eq!(table.account_owner(&"carol.near".to_string()), Err(FindRouteError::AccountNotFound));
    let accounts = table.get_accounts();
    assert_eq!(accounts.len(), 2);
    let names: HashSet<String> = accounts.iter().map(|a| a.account_id.clone()).collect();
    assert!(names.contains("alice.near") && names.contains("bob.near"));
    // Differing in the epoch or the signature alone is a conflict too.
    let other_epoch = AnnounceAccount { epoch_id: CryptoHash([9; 32]), ..announce("bob.near", "b", 1) };
    assert!(!table.add_account(other_epoch));
    let other_signature =
        AnnounceAccount { signature: Signature { data: [9; 64] }, ..announce("bob.near", "b", 1) };
    assert!(!table.contains_account(other_signature));
}

#[test]
fn info_is_a_copy() {
    let mut table = RoutingTable::new(peer("me"));
    assert!(table.add_account(announce("alice.near", "a", 1)));
    connect(&mut table, "me", "a");
    table.update();
    let info = table.info();
    assert_eq!(info.account_peers.len(), 1);
    assert!(info.account_peers.get(&"alice.near".to_string()) == Some(&peer("a")));
    assert!(info.account_peers.get(&"bob.near".to_string()).is_none());
    assert_eq!(info.peer_forwarding.len(), 1);
    assert_eq!(info.peer_forwarding.get(&peer("a")), Some(&vec![peer("a")]));
    // The table moves on; the snapshot stays.
    connect(&mut table, "a", "b");
    table.update();
    assert!(table.add_account(announce("bob.near", "b", 1)));
    assert_eq!(info.peer_forwarding.len(), 1);
    assert_eq!(info.account_peers.len(), 1);
    assert_eq!(table.info().peer_forwarding.len(), 2);
}

#[test]
fn first_ping_and_pong_of_a_nonce_are_kept() {
    let mut table = RoutingTable::new(peer("me"));
    table.add_ping(Ping { nonce: 1, source: peer("a") });
    table.add_ping(Ping { nonce: 1, source: peer("b") });
    table.add_ping(Ping { nonce: 2, source: peer("c") });
    table.add_pong(Pong { nonce: 7, source: peer("d") });
    table.add_pong(Pong { nonce: 7, source: peer("e") });
    let (pings, pongs) = table.fetch_ping_pong();
    assert_eq!(pings.len(), 2);
    assert!(pings[&1].source == peer("a"));
    assert!(pings[&2].source == peer("c"));
    assert_eq!(pongs.len(), 1);
    assert!(pongs[&7].source == peer("d"));
}

#[test]
fn public_key_bytes_round_trip_through_route_back() {
    let mut table = RoutingTable::new(peer("me"));
    let odd = PeerId::new(PublicKey { data: [0xab; 32] });
    table.add_route_back(CryptoHash([1; 32]), odd);
    assert_eq!(table.find_route(&PeerIdOrHash::Hash(CryptoHash([1; 32]))), Ok(odd));
}

#[test]
fn use_counts_stay_within_eleven() {
    // Three hops to t; q has been used 30 times before p and r join.
    let mut table = RoutingTable::new(peer("me"));
    for name in ["p", "q", "r"] {
        connect(&mut table, "me", name);
    }
    connect(&mut table, "q", "u");
    table.update();
    let (p, q, r, t, u) = (peer("p"), peer("q"), peer("r"), peer("t"), peer("u"));
    for _ in 0..30 {
        assert_eq!(table.find_route_from_peer_id(&u), Ok(q));
    }
    for name in ["p", "q", "r"] {
        connect(&mut table, name, "t");
    }
    table.update();
    let spread = |table: &RoutingTable| {
        let counts = [table.route_nonce(&p), table.route_nonce(&q), table.route_nonce(&r)];
        counts.iter().max().unwrap() - counts.iter().min().unwrap()
    };
    assert_eq!(spread(&table), 30);
    // The first pick raises one of the two unused hops to 21; the other
    // is still at 0, so the counts are not yet within eleven.
    let first = table.find_route_from_peer_id(&t).unwrap();
    assert!(first == p || first == r);
    assert_eq!(table.route_nonce(&first), 21);
    assert_eq!(spread(&table), 30);
    // The second pick raises the other; from then on they stay together.
    let second = table.find_route_from_peer_id(&t).unwrap();
    assert!(second != first && second != q);
    assert_eq!(table.route_nonce(&second), 21);
    for _ in 0..100 {
        assert!(spread(&table) <= 11);
        let before = [table.route_nonce(&p), table.route_nonce(&q), table.route_nonce(&r)];
        let next = table.find_route_from_peer_id(&t).unwrap();
        let least = *before.iter().min().unwrap();
        assert_eq!(table.route_nonce(&next), least + 1);
    }
    assert!(spread(&table) <= 1);
}

#[test]
fn edges_compare_by_their_fields() {
    let edge = added("me", "a", 1);
    assert!(edge == added("a", "me", 1));
    assert!(edge != added("me", "a", 3));
    assert!(edge != added("me", "b", 1));
    let info = EdgeInfo::new(peer("me"), peer("a"), 1, &keys("me").1);
    assert!(info == EdgeInfo::new(peer("a"), peer("me"), 1, &keys("me").1));
    assert!(info != EdgeInfo::new(peer("a"), peer("me"), 1, &keys("a").1));
}
