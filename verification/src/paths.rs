//! Walks, distances and first hops in a graph.
//!
//! A graph is given by its set of directed pairs; an undirected graph holds
//! each pair in both directions. Nothing here depends on what a vertex is.

use vstd::prelude::*;

verus! {

/// Whether some walk of exactly `len` steps leads from `from` to `to`.
pub open spec fn walk<V>(edges: Set<(V, V)>, from: V, to: V, len: nat) -> bool
    decreases len,
{
    if len == 0 {
        from == to
    } else {
        exists|via: V|
            walk(edges, from, via, (len - 1) as nat) && #[trigger] edges.contains((via, to))
    }
}

/// Whether `to` can be reached from `from` at all.
pub open spec fn reachable<V>(edges: Set<(V, V)>, from: V, to: V) -> bool {
    exists|len: nat| walk(edges, from, to, len)
}

/// Whether `d` is the number of steps of a shortest walk from `from` to `to`.
pub open spec fn is_distance<V>(edges: Set<(V, V)>, from: V, to: V, d: nat) -> bool {
    walk(edges, from, to, d) && forall|k: nat| k < d ==> !walk(edges, from, to, k)
}

/// The number of steps of a shortest walk from `from` to `to`, where `to` is
/// reachable.
pub open spec fn distance<V>(edges: Set<(V, V)>, from: V, to: V) -> nat {
    choose|d: nat| is_distance(edges, from, to, d)
}

/// Whether `hop` is a neighbor of `source` through which some shortest walk
/// from `source` to `target` goes.
pub open spec fn is_first_hop<V>(edges: Set<(V, V)>, source: V, hop: V, target: V) -> bool {
    exists|d: nat| #[trigger]
        is_distance(edges, source, target, d) && d >= 1 && edges.contains((source, hop)) && walk(
            edges,
            hop,
            target,
            (d - 1) as nat,
        )
}

/// All the first hops from `source` towards `target`.
pub open spec fn first_hops<V>(edges: Set<(V, V)>, source: V, target: V) -> Set<V> {
    Set::new(|hop: V| is_first_hop(edges, source, hop, target))
}

/// The forwarding map of `source`: for each other vertex that `source`
/// reaches, the first hops towards it.
pub open spec fn forwarding<V>(edges: Set<(V, V)>, source: V) -> Map<V, Set<V>> {
    Map::new(
        |target: V| target != source && reachable(edges, source, target),
        |target: V| first_hops(edges, source, target),
    )
}

/// A walk goes on along an edge.
pub proof fn lemma_walk_extend<V>(edges: Set<(V, V)>, from: V, via: V, to: V, len: nat)
    requires
        walk(edges, from, via, len),
        edges.contains((via, to)),
    ensures
        walk(edges, from, to, len + 1),
{
    assert(walk(edges, from, via, ((len + 1) - 1) as nat));
}

/// An edge followed by a walk is a walk.
pub proof fn lemma_walk_prepend<V>(edges: Set<(V, V)>, from: V, next: V, to: V, len: nat)
    requires
        edges.contains((from, next)),
        walk(edges, next, to, len),
    ensures
        walk(edges, from, to, len + 1),
    decreases len,
{
    if len == 0 {
        assert(walk(edges, from, from, 0));
        lemma_walk_extend(edges, from, from, to, 0);
    } else {
        let via = choose|via: V|
            walk(edges, next, via, (len - 1) as nat) && #[trigger] edges.contains((via, to));
        lemma_walk_prepend(edges, from, next, via, (len - 1) as nat);
        lemma_walk_extend(edges, from, via, to, len);
    }
}

/// A walk of one step is an edge.
pub proof fn lemma_walk_one<V>(edges: Set<(V, V)>, from: V, to: V)
    ensures
        walk(edges, from, to, 1) == edges.contains((from, to)),
{
    if edges.contains((from, to)) {
        assert(walk(edges, from, from, 0));
        lemma_walk_extend(edges, from, from, to, 0);
    }
    if walk(edges, from, to, 1) {
        let via = choose|via: V|
            walk(edges, from, via, (1 - 1) as nat) && #[trigger] edges.contains((via, to));
        assert(walk(edges, from, via, 0));
    }
}

/// Among the walks from `from` to `to` there is a shortest one.
pub proof fn lemma_shortest_walk<V>(edges: Set<(V, V)>, from: V, to: V, len: nat) -> (d: nat)
    requires
        walk(edges, from, to, len),
    ensures
        d <= len,
        is_distance(edges, from, to, d),
    decreases len,
{
    if exists|k: nat| k < len && walk(edges, from, to, k) {
        let k = choose|k: nat| k < len && walk(edges, from, to, k);
        lemma_shortest_walk(edges, from, to, k)
    } else {
        len
    }
}

/// The distance between two vertices is one number.
pub proof fn lemma_distance_unique<V>(edges: Set<(V, V)>, from: V, to: V, d: nat)
    requires
        is_distance(edges, from, to, d),
    ensures
        distance(edges, from, to) == d,
        forall|e: nat| is_distance(edges, from, to, e) ==> e == d,
{
    assert forall|e: nat| is_distance(edges, from, to, e) implies e == d by {
        if e < d {
            assert(!walk(edges, from, to, e));
        } else if d < e {
            assert(!walk(edges, from, to, d));
        }
    }
}

/// A first hop towards a vertex next to `target` on a shortest walk is a
/// first hop towards `target`.
pub proof fn lemma_first_hop_extend<V>(
    edges: Set<(V, V)>,
    source: V,
    hop: V,
    via: V,
    target: V,
    d: nat,
)
    requires
        is_distance(edges, source, via, d),
        is_distance(edges, source, target, d + 1),
        edges.contains((via, target)),
        is_first_hop(edges, source, hop, via),
    ensures
        is_first_hop(edges, source, hop, target),
{
    let dv = choose|dv: nat| #[trigger]
        is_distance(edges, source, via, dv) && dv >= 1 && edges.contains((source, hop)) && walk(
            edges,
            hop,
            via,
            (dv - 1) as nat,
        );
    lemma_distance_unique(edges, source, via, d);
    lemma_walk_extend(edges, hop, via, target, (d - 1) as nat);
    assert(walk(edges, hop, target, ((d + 1) - 1) as nat));
}

/// The only first hop towards a neighbor of `source` is that neighbor.
pub proof fn lemma_first_hop_neighbor<V>(edges: Set<(V, V)>, source: V, hop: V, target: V)
    requires
        is_distance(edges, source, target, 1),
    ensures
        is_first_hop(edges, source, hop, target) == (hop == target),
{
    lemma_distance_unique(edges, source, target, 1);
    lemma_walk_one(edges, source, target);
    if hop == target {
        assert(walk(edges, hop, target, (1 - 1) as nat));
    }
    if is_first_hop(edges, source, hop, target) {
        let d = choose|d: nat| #[trigger]
            is_distance(edges, source, target, d) && d >= 1 && edges.contains((source, hop))
                && walk(edges, hop, target, (d - 1) as nat);
        assert(d == 1);
        assert(walk(edges, hop, target, 0));
    }
}

/// A first hop towards a vertex two or more steps away is a first hop
/// towards a vertex that comes just before it on a shortest walk.
pub proof fn lemma_first_hop_before<V>(
    edges: Set<(V, V)>,
    source: V,
    hop: V,
    target: V,
    d: nat,
) -> (via: V)
    requires
        is_distance(edges, source, target, d),
        d >= 2,
        is_first_hop(edges, source, hop, target),
    ensures
        edges.contains((via, target)),
        is_distance(edges, source, via, (d - 1) as nat),
        is_first_hop(edges, source, hop, via),
{
    lemma_distance_unique(edges, source, target, d);
    let hop_len = (d - 1) as nat;
    assert(walk(edges, hop, target, hop_len));
    let via = choose|via: V|
        walk(edges, hop, via, (hop_len - 1) as nat) && #[trigger] edges.contains((via, target));
    lemma_walk_prepend(edges, source, hop, via, (hop_len - 1) as nat);
    assert(walk(edges, source, via, hop_len));
    assert forall|k: nat| k < hop_len implies !walk(edges, source, via, k) by {
        if walk(edges, source, via, k) {
            lemma_walk_extend(edges, source, via, target, k);
            assert(walk(edges, source, target, k + 1));
        }
    }
    assert(is_distance(edges, source, via, hop_len));
    via
}

/// Every first hop is a neighbor of the source, one step nearer to the
/// target than the source is.
pub proof fn lemma_first_hop_distance<V>(edges: Set<(V, V)>, source: V, hop: V, target: V)
    requires
        is_first_hop(edges, source, hop, target),
    ensures
        edges.contains((source, hop)),
        reachable(edges, source, target),
        reachable(edges, hop, target),
        distance(edges, source, target) == 1 + distance(edges, hop, target),
        is_distance(edges, hop, target, distance(edges, hop, target)),
{
    let d = choose|d: nat| #[trigger]
        is_distance(edges, source, target, d) && d >= 1 && edges.contains((source, hop)) && walk(
            edges,
            hop,
            target,
            (d - 1) as nat,
        );
    lemma_distance_unique(edges, source, target, d);
    let rest = (d - 1) as nat;
    assert forall|k: nat| k < rest implies !walk(edges, hop, target, k) by {
        if walk(edges, hop, target, k) {
            lemma_walk_prepend(edges, source, hop, target, k);
            assert(walk(edges, source, target, k + 1));
        }
    }
    assert(is_distance(edges, hop, target, rest));
    lemma_distance_unique(edges, hop, target, rest);
}

/// The source is no key of its own forwarding map, every key is reachable
/// and has a first hop.
pub proof fn lemma_forwarding_keys<V>(edges: Set<(V, V)>, source: V, target: V)
    requires
        forwarding(edges, source).dom().contains(target),
    ensures
        target != source,
        reachable(edges, source, target),
        exists|hop: V| forwarding(edges, source)[target].contains(hop),
{
    let len = choose|len: nat| walk(edges, source, target, len);
    let d = lemma_shortest_walk(edges, source, target, len);
    assert(d >= 1) by {
        if d == 0 {
            assert(walk(edges, source, target, 0));
        }
    }
    let hop = lemma_some_first_hop(edges, source, target, d);
    assert(forwarding(edges, source)[target].contains(hop));
}

/// A vertex at distance one or more has a first hop.
pub proof fn lemma_some_first_hop<V>(edges: Set<(V, V)>, source: V, target: V, d: nat) -> (hop: V)
    requires
        is_distance(edges, source, target, d),
        d >= 1,
    ensures
        is_first_hop(edges, source, hop, target),
    decreases d,
{
    if d == 1 {
        lemma_first_hop_neighbor(edges, source, target, target);
        target
    } else {
        let via = choose|via: V|
            walk(edges, source, via, (d - 1) as nat) && #[trigger] edges.contains((via, target));
        let before = (d - 1) as nat;
        assert forall|k: nat| k < before implies !walk(edges, source, via, k) by {
            if walk(edges, source, via, k) {
                lemma_walk_extend(edges, source, via, target, k);
                assert(walk(edges, source, target, k + 1));
            }
        }
        let hop = lemma_some_first_hop(edges, source, via, before);
        lemma_first_hop_extend(edges, source, hop, via, target, before);
        hop
    }
}

} // verus!
