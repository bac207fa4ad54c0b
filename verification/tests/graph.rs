use near_network::crypto::{KeyType, SecretKey};
use near_network::forwarding::ForwardingMap;
use near_network::graph::Graph;
use near_network::types::PeerId;
use std::collections::hash_map::RandomState;
use std::collections::HashSet;
use std::hash::{BuildHasher, Hasher};

fn random_peer_id() -> PeerId {
    let seed = format!("{:016x}", RandomState::new().build_hasher().finish());
    PeerId::new(SecretKey::from_seed(KeyType::ED25519, &seed).public_key())
}

fn expected_routing_tables(current: ForwardingMap, expected: Vec<(PeerId, Vec<PeerId>)>) -> bool {
    if current.len() != expected.len() {
        return false;
    }
    for (peer, paths) in expected.into_iter() {
        let cur_paths = match current.get(&peer) {
            Some(cur_paths) => cur_paths,
            None => return false,
        };
        let cur_paths: HashSet<PeerId> = cur_paths.iter().cloned().collect();
        if cur_paths.len() != paths.len() {
            return false;
        }
        for next_hop in paths.into_iter() {
            if !cur_paths.contains(&next_hop) {
                return false;
            }
        }
    }
    true
}

#[test]
fn graph_contains_edge() {
    let source = random_peer_id();

    let node0 = random_peer_id();
    let node1 = random_peer_id();

    let mut graph = Graph::new(source.clone());

    assert_eq!(graph.contains_edge(&source, &node0), false);
    assert_eq!(graph.contains_edge(&source, &node1), false);
    assert_eq!(graph.contains_edge(&node0, &node1), false);
    assert_eq!(graph.contains_edge(&node1, &node0), false);

    graph.add_edge(node0.clone(), node1.clone());

    assert_eq!(graph.contains_edge(&source, &node0), false);
    assert_eq!(graph.contains_edge(&source, &node1), false);
    assert_eq!(graph.contains_edge(&node0, &node1), true);
    assert_eq!(graph.contains_edge(&node1, &node0), true);

    graph.remove_edge(&node1, &node0);

    assert_eq!(graph.contains_edge(&node0, &node1), false);
    assert_eq!(graph.contains_edge(&node1, &node0), false);
}

#[test]
fn graph_distance0() {
    let source = random_peer_id();
    let node0 = random_peer_id();

    let mut graph = Graph::new(source.clone());
    graph.add_edge(source.clone(), node0.clone());

    assert!(expected_routing_tables(
        graph.calculate_distance(),
        vec![(node0.clone(), vec![node0.clone()])],
    ));
}

#[test]
fn graph_distance1() {
    let source = random_peer_id();
    let nodes: Vec<_> = (0..3).map(|_| random_peer_id()).collect();

    let mut graph = Graph::new(source.clone());

    graph.add_edge(nodes[0].clone(), nodes[1].clone());
    graph.add_edge(nodes[2].clone(), nodes[1].clone());
    graph.add_edge(nodes[1].clone(), nodes[2].clone());

    assert!(expected_routing_tables(graph.calculate_distance(), vec![]));
}

#[test]
fn graph_distance2() {
    let source = random_peer_id();
    let nodes: Vec<_> = (0..3).map(|_| random_peer_id()).collect();

    let mut graph = Graph::new(source.clone());

    graph.add_edge(nodes[0].clone(), nodes[1].clone());
    graph.add_edge(nodes[2].clone(), nodes[1].clone());
    graph.add_edge(nodes[1].clone(), nodes[2].clone());
    graph.add_edge(source.clone(), nodes[0].clone());

    assert!(expected_routing_tables(
        graph.calculate_distance(),
        vec![
            (nodes[0].clone(), vec![nodes[0].clone()]),
            (nodes[1].clone(), vec![nodes[0].clone()]),
            (nodes[2].clone(), vec![nodes[0].clone()]),
        ],
    ));
}

#[test]
fn graph_distance3() {
    let source = random_peer_id();
    let nodes: Vec<_> = (0..3).map(|_| random_peer_id()).collect();

    let mut graph = Graph::new(source.clone());

    graph.add_edge(nodes[0].clone(), nodes[1].clone());
    graph.add_edge(nodes[2].clone(), nodes[1].clone());
    graph.add_edge(nodes[0].clone(), nodes[2].clone());
    graph.add_edge(source.clone(), nodes[0].clone());
    graph.add_edge(source.clone(), nodes[1].clone());

    assert!(expected_routing_tables(
        graph.calculate_distance(),
        vec![
            (nodes[0].clone(), vec![nodes[0].clone()]),
            (nodes[1].clone(), vec![nodes[1].clone()]),
            (nodes[2].clone(), vec![nodes[0].clone(), nodes[1].clone()]),
        ],
    ));
}

/// Test the following graph
///     0 - 3 - 6
///   /   x   x
/// s - 1 - 4 - 7
///   \   x   x
///     2 - 5 - 8
///
///    9 - 10 (Dummy edge disconnected)
///
/// There is a shortest path to nodes [3..9) going through 0, 1, and 2.
#[test]
fn graph_distance4() {
    let source = random_peer_id();
    let nodes: Vec<_> = (0..11).map(|_| random_peer_id()).collect();

    let mut graph = Graph::new(source.clone());

    for i in 0..3 {
        graph.add_edge(source.clone(), nodes[i].clone());
    }

    for level in 0..2 {
        for i in 0..3 {
            for j in 0..3 {
                graph.add_edge(nodes[level * 3 + i].clone(), nodes[level * 3 + 3 + j].clone());
            }
        }
    }

    // Dummy edge.
    graph.add_edge(nodes[9].clone(), nodes[10].clone());

    let mut next_hops: Vec<_> =
        (0..3).map(|i| (nodes[i].clone(), vec![nodes[i].clone()])).collect();
    let target: Vec<_> = (0..3).map(|i| nodes[i].clone()).collect();

    for i in 3..9 {
        next_hops.push((nodes[i].clone(), target.clone()));
    }

    assert!(expected_routing_tables(graph.calculate_distance(), next_hops));
}

#[test]
fn graph_add_edge_twice_is_once() {
    let source = random_peer_id();
    let node0 = random_peer_id();
    let mut graph = Graph::new(source);
    graph.add_edge(source, node0);
    graph.add_edge(node0, source);
    graph.add_edge(source, node0);
    assert!(graph.contains_edge(&source, &node0));
    graph.remove_edge(&source, &node0);
    assert!(!graph.contains_edge(&source, &node0));
    assert!(!graph.contains_edge(&node0, &source));
    assert_eq!(graph.calculate_distance().len(), 0);
}

#[test]
fn graph_remove_unknown_edge_changes_nothing() {
    let source = random_peer_id();
    let node0 = random_peer_id();
    let node1 = random_peer_id();
    let mut graph = Graph::new(source);
    graph.add_edge(source, node0);
    graph.remove_edge(&node0, &node1);
    graph.remove_edge(&node1, &source);
    assert!(graph.contains_edge(&node0, &source));
    assert!(expected_routing_tables(graph.calculate_distance(), vec![(node0, vec![node0])]));
}

#[test]
fn graph_adjacency_is_symmetric() {
    let peers: Vec<_> = (0..5).map(|_| random_peer_id()).collect();
    let mut graph = Graph::new(peers[0]);
    graph.add_edge(peers[0], peers[1]);
    graph.add_edge(peers[2], peers[1]);
    graph.add_edge(peers[3], peers[4]);
    graph.remove_edge(&peers[1], &peers[2]);
    for a in peers.iter() {
        for b in peers.iter() {
            assert_eq!(graph.contains_edge(a, b), graph.contains_edge(b, a));
        }
    }
}

#[test]
fn graph_source_is_never_a_target() {
    let source = random_peer_id();
    let node0 = random_peer_id();
    let node1 = random_peer_id();
    let mut graph = Graph::new(source);
    graph.add_edge(source, source);
    graph.add_edge(source, node0);
    graph.add_edge(node0, node1);
    graph.add_edge(node1, source);
    let routes = graph.calculate_distance();
    assert!(!routes.contains_key(&source));
    assert!(expected_routing_tables(routes, vec![(node0, vec![node0]), (node1, vec![node1])]));
}

#[test]
fn graph_first_hops_follow_distance() {
    // s - a - c - d and s - b - c: both a and b start a shortest path to c
    // and to d; the longer way round through e starts none.
    let s = random_peer_id();
    let a = random_peer_id();
    let b = random_peer_id();
    let c = random_peer_id();
    let d = random_peer_id();
    let e = random_peer_id();
    let f = random_peer_id();
    let mut graph = Graph::new(s);
    graph.add_edge(s, a);
    graph.add_edge(s, b);
    graph.add_edge(a, c);
    graph.add_edge(b, c);
    graph.add_edge(c, d);
    graph.add_edge(s, e);
    graph.add_edge(e, f);
    graph.add_edge(f, d);
    assert!(expected_routing_tables(
        graph.calculate_distance(),
        vec![
            (a, vec![a]),
            (b, vec![b]),
            (e, vec![e]),
            (c, vec![a, b]),
            (f, vec![e]),
            (d, vec![a, b, e]),
        ],
    ));
}

#[test]
fn graph_two_runs_agree() {
    let source = random_peer_id();
    let nodes: Vec<_> = (0..4).map(|_| random_peer_id()).collect();
    let mut one = Graph::new(source);
    one.add_edge(source, nodes[0]);
    one.add_edge(source, nodes[1]);
    one.add_edge(nodes[0], nodes[2]);
    one.add_edge(nodes[1], nodes[2]);
    one.add_edge(nodes[2], nodes[3]);
    let mut other = Graph::new(source);
    other.add_edge(nodes[3], nodes[2]);
    other.add_edge(nodes[2], nodes[1]);
    other.add_edge(nodes[2], nodes[0]);
    other.add_edge(nodes[1], source);
    other.add_edge(nodes[0], source);
    let first = one.calculate_distance();
    let again = one.calculate_distance();
    let third = other.calculate_distance();
    let mut expected = Vec::new();
    for target in first.targets() {
        expected.push((target, first.get(&target).unwrap().clone()));
    }
    assert_eq!(expected.len(), 4);
    assert!(expected_routing_tables(again, expected.clone()));
    assert!(expected_routing_tables(third, expected));
}
