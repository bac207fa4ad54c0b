//! The order in which next hops are picked among the first hops to one
//! target, and what follows from it: the picks go round, and use counts
//! that lie far apart are pulled together.

use crate::types::{lemma_peer_order, PeerId};
use vstd::arithmetic::div_mod::{
    lemma_fundamental_div_mod, lemma_fundamental_div_mod_converse, lemma_mod_bound,
};
use vstd::prelude::*;
use vstd::set_lib::{lemma_len_subset, lemma_subset_equality};

verus! {

/// How far the use counts of the first hops to one target may lie apart
/// before the least used one is pulled up.
pub const ROUND_ROBIN_MAX_NONCE_DIFFERENCE_ALLOWED: usize = 10;

/// How often `peer` was picked as next hop; 0 where it never was.
pub open spec fn count_of(counts: Map<PeerId, usize>, peer: PeerId) -> usize {
    if counts.dom().contains(peer) {
        counts[peer]
    } else {
        0
    }
}

/// The order in which hops are picked: the less used one first, and of
/// two hops used equally often the smaller peer.
pub open spec fn ranks_before(counts: Map<PeerId, usize>, a: PeerId, b: PeerId) -> bool {
    count_of(counts, a) < count_of(counts, b) || (count_of(counts, a) == count_of(counts, b)
        && a.precedes(&b))
}

/// Whether `hop` is the first of `hops` in the order of picking.
pub open spec fn is_least_used(counts: Map<PeerId, usize>, hops: Set<PeerId>, hop: PeerId) -> bool {
    hops.contains(hop) && forall|other: PeerId|
        hops.contains(other) && other != hop ==> ranks_before(counts, hop, other)
}

/// Whether `hop` is the last of `hops` in the order of picking.
pub open spec fn is_most_used(counts: Map<PeerId, usize>, hops: Set<PeerId>, hop: PeerId) -> bool {
    hops.contains(hop) && forall|other: PeerId|
        hops.contains(other) && other != hop ==> ranks_before(counts, other, hop)
}

/// The first of `hops` in the order of picking.
pub open spec fn least_used(counts: Map<PeerId, usize>, hops: Set<PeerId>) -> PeerId {
    choose|hop: PeerId| is_least_used(counts, hops, hop)
}

/// The last of `hops` in the order of picking.
pub open spec fn most_used(counts: Map<PeerId, usize>, hops: Set<PeerId>) -> PeerId {
    choose|hop: PeerId| is_most_used(counts, hops, hop)
}

/// The use count that the picked hop gets: one more than it had, or, where
/// it lay more than `ROUND_ROBIN_MAX_NONCE_DIFFERENCE_ALLOWED` below the
/// most used hop, one more than that distance below.
pub open spec fn count_after(counts: Map<PeerId, usize>, hops: Set<PeerId>) -> int {
    let low = count_of(counts, least_used(counts, hops));
    let high = count_of(counts, most_used(counts, hops));
    if low + ROUND_ROBIN_MAX_NONCE_DIFFERENCE_ALLOWED < high {
        high - ROUND_ROBIN_MAX_NONCE_DIFFERENCE_ALLOWED + 1
    } else {
        low + 1
    }
}

/// The use counts after a hop was picked from `hops`.
pub open spec fn counts_after(counts: Map<PeerId, usize>, hops: Set<PeerId>) -> Map<PeerId, usize> {
    counts.insert(least_used(counts, hops), count_after(counts, hops) as usize)
}

/// Only one hop is the first in the order of picking, and only one the
/// last.
pub proof fn lemma_pick_unique(counts: Map<PeerId, usize>, hops: Set<PeerId>, hop: PeerId)
    ensures
        is_least_used(counts, hops, hop) ==> least_used(counts, hops) == hop,
        is_most_used(counts, hops, hop) ==> most_used(counts, hops) == hop,
{
    if is_least_used(counts, hops, hop) {
        let other = least_used(counts, hops);
        assert(is_least_used(counts, hops, other));
        if other != hop {
            lemma_peer_order(hop, other, hop);
        }
    }
    if is_most_used(counts, hops, hop) {
        let other = most_used(counts, hops);
        assert(is_most_used(counts, hops, other));
        if other != hop {
            lemma_peer_order(hop, other, hop);
        }
    }
}

/// The order of picking is a strict total order.
pub proof fn lemma_rank_order(counts: Map<PeerId, usize>, a: PeerId, b: PeerId, c: PeerId)
    ensures
        !ranks_before(counts, a, a),
        ranks_before(counts, a, b) ==> !ranks_before(counts, b, a),
        ranks_before(counts, a, b) && ranks_before(counts, b, c) ==> ranks_before(counts, a, c),
        a != b ==> ranks_before(counts, a, b) || ranks_before(counts, b, a),
{
    lemma_peer_order(a, b, c);
}

/// Among finitely many hops, one or more, one is the first in the order
/// of picking.
pub proof fn lemma_first_exists(counts: Map<PeerId, usize>, hops: Set<PeerId>) -> (hop: PeerId)
    requires
        hops.finite(),
        hops.len() > 0,
    ensures
        is_least_used(counts, hops, hop),
        least_used(counts, hops) == hop,
    decreases hops.len(),
{
    let x = hops.choose();
    let rest = hops.remove(x);
    let hop = if rest.len() == 0 {
        assert forall|other: PeerId| hops.contains(other) && other != x implies ranks_before(
            counts,
            x,
            other,
        ) by {
            assert(rest.contains(other));
        }
        x
    } else {
        let first = lemma_first_exists(counts, rest);
        if ranks_before(counts, x, first) {
            assert forall|other: PeerId| hops.contains(other) && other != x implies ranks_before(
                counts,
                x,
                other,
            ) by {
                assert(rest.contains(other));
                lemma_rank_order(counts, x, first, other);
            }
            x
        } else {
            assert forall|other: PeerId|
                hops.contains(other) && other != first implies ranks_before(
                counts,
                first,
                other,
            ) by {
                if other == x {
                    lemma_rank_order(counts, x, first, other);
                } else {
                    assert(rest.contains(other));
                }
            }
            first
        }
    };
    lemma_pick_unique(counts, hops, hop);
    hop
}

/// Among finitely many hops, one or more, one is the last in the order of
/// picking.
pub proof fn lemma_last_exists(counts: Map<PeerId, usize>, hops: Set<PeerId>) -> (hop: PeerId)
    requires
        hops.finite(),
        hops.len() > 0,
    ensures
        is_most_used(counts, hops, hop),
        most_used(counts, hops) == hop,
    decreases hops.len(),
{
    let x = hops.choose();
    let rest = hops.remove(x);
    let hop = if rest.len() == 0 {
        assert forall|other: PeerId| hops.contains(other) && other != x implies ranks_before(
            counts,
            other,
            x,
        ) by {
            assert(rest.contains(other));
        }
        x
    } else {
        let last = lemma_last_exists(counts, rest);
        if ranks_before(counts, last, x) {
            assert forall|other: PeerId| hops.contains(other) && other != x implies ranks_before(
                counts,
                other,
                x,
            ) by {
                assert(rest.contains(other));
                lemma_rank_order(counts, other, last, x);
            }
            x
        } else {
            assert forall|other: PeerId| hops.contains(other) && other != last implies ranks_before(
                counts,
                other,
                last,
            ) by {
                if other == x {
                    lemma_rank_order(counts, x, last, other);
                } else {
                    assert(rest.contains(other));
                }
            }
            last
        }
    };
    lemma_pick_unique(counts, hops, hop);
    hop
}

/// The use counts of the hops lie between that of the first and that of
/// the last in the order of picking.
pub proof fn lemma_counts_between(counts: Map<PeerId, usize>, hops: Set<PeerId>, hop: PeerId)
    requires
        hops.finite(),
        hops.len() > 0,
        hops.contains(hop),
    ensures
        count_of(counts, least_used(counts, hops)) <= count_of(counts, hop) <= count_of(
            counts,
            most_used(counts, hops),
        ),
{
    let first = lemma_first_exists(counts, hops);
    let last = lemma_last_exists(counts, hops);
}

/// Whether no two of the hops have use counts further apart than `bound`.
pub open spec fn spread_within(counts: Map<PeerId, usize>, hops: Set<PeerId>, bound: int) -> bool {
    forall|a: PeerId, b: PeerId|
        hops.contains(a) && hops.contains(b) ==> count_of(counts, a) - count_of(counts, b) <= bound
}

/// Whether every hop but the one that is picked next lies within `bound`
/// of the most used one.
pub open spec fn others_within(counts: Map<PeerId, usize>, hops: Set<PeerId>, bound: int) -> bool {
    forall|other: PeerId|
        hops.contains(other) && other != least_used(counts, hops) ==> count_of(
            counts,
            most_used(counts, hops),
        ) - count_of(counts, other) <= bound
}

/// The clamp. After a pick, the picked hop lies no more than one above
/// and no more than nine below the hop that was the most used. So where
/// the other hops were within eleven of the most used one, all use counts
/// are within eleven of each other after the pick; and where one of the
/// other hops was not, they are not.
pub proof fn lemma_clamp(counts: Map<PeerId, usize>, hops: Set<PeerId>)
    requires
        hops.finite(),
        hops.len() > 0,
        count_after(counts, hops) <= usize::MAX,
    ensures
        count_of(counts_after(counts, hops), least_used(counts, hops)) == count_after(
            counts,
            hops,
        ),
        count_of(counts, most_used(counts, hops)) - 9 <= count_after(counts, hops) <= count_of(
            counts,
            most_used(counts, hops),
        ) + 1,
        spread_within(counts_after(counts, hops), hops, 11) == others_within(counts, hops, 11),
{
    let first = lemma_first_exists(counts, hops);
    let last = lemma_last_exists(counts, hops);
    let after = counts_after(counts, hops);
    let high = count_of(counts, last);
    let picked = count_after(counts, hops);
    lemma_counts_between(counts, hops, first);
    assert forall|hop: PeerId| hops.contains(hop) implies count_of(counts, first) <= count_of(
        counts,
        hop,
    ) <= high && count_of(after, hop) == if hop == first {
        picked
    } else {
        count_of(counts, hop) as int
    } by {
        lemma_counts_between(counts, hops, hop);
    }
    if others_within(counts, hops, 11) {
        assert forall|a: PeerId, b: PeerId| hops.contains(a) && hops.contains(b) implies count_of(
            after,
            a,
        ) - count_of(after, b) <= 11 by {
            lemma_counts_between(counts, hops, a);
            lemma_counts_between(counts, hops, b);
            if picked == high + 1 && b != first {
                // All hops were level, so `b` is as high as the last.
                assert(count_of(counts, first) == high);
            }
        }
    }
    if spread_within(after, hops, 11) {
        assert forall|other: PeerId| hops.contains(other) && other != first implies high
            - count_of(counts, other) <= 11 by {
            if last == first {
                lemma_counts_between(counts, hops, other);
                lemma_rank_order(counts, first, other, first);
            } else {
                assert(count_of(after, last) - count_of(after, other) <= 11);
            }
        }
    }
}

/// The use counts after `n` picks among the same hops.
pub open spec fn counts_after_picks(counts: Map<PeerId, usize>, hops: Set<PeerId>, n: nat) -> Map<
    PeerId,
    usize,
>
    decreases n,
{
    if n == 0 {
        counts
    } else {
        counts_after(counts_after_picks(counts, hops, (n - 1) as nat), hops)
    }
}

/// How often `hop` is picked in `n` picks among the same hops.
pub open spec fn times_picked(counts: Map<PeerId, usize>, hops: Set<PeerId>, n: nat, hop: PeerId) -> nat
    decreases n,
{
    if n == 0 {
        0
    } else {
        times_picked(counts, hops, (n - 1) as nat, hop) + if least_used(
            counts_after_picks(counts, hops, (n - 1) as nat),
            hops,
        ) == hop {
            1nat
        } else {
            0nat
        }
    }
}

/// The hops that have had their turn in the round that is under way:
/// those whose use count is above `base`.
pub open spec fn raised(counts: Map<PeerId, usize>, hops: Set<PeerId>, base: int) -> Set<PeerId> {
    hops.filter(|hop: PeerId| count_of(counts, hop) == base + 1)
}

/// Whether the hops are being picked in turn: each has been picked `base`
/// times or once more, not all of them once more, and those picked once
/// more are the smallest peers.
pub open spec fn in_turn(counts: Map<PeerId, usize>, hops: Set<PeerId>, base: int) -> bool {
    &&& forall|hop: PeerId|
        hops.contains(hop) ==> count_of(counts, hop) == base || count_of(counts, hop) == base + 1
    &&& exists|hop: PeerId| hops.contains(hop) && count_of(counts, hop) == base
    &&& forall|a: PeerId, b: PeerId|
        hops.contains(a) && hops.contains(b) && count_of(counts, a) == base + 1 && b.precedes(&a)
            ==> count_of(counts, b) == base + 1
}

/// One pick among hops that are picked in turn: the pick goes to a hop
/// that has not had its turn, and the hops are still picked in turn, in
/// the same round or, when all have had their turn, at the start of the
/// next.
pub proof fn lemma_one_pick(counts: Map<PeerId, usize>, hops: Set<PeerId>, base: int)
    requires
        hops.finite(),
        hops.len() > 0,
        in_turn(counts, hops, base),
        base + 1 <= usize::MAX,
    ensures
        hops.contains(least_used(counts, hops)),
        count_of(counts, least_used(counts, hops)) == base,
        counts_after(counts, hops) == counts.insert(least_used(counts, hops), (base + 1) as usize),
        raised(counts, hops, base).len() < hops.len(),
        raised(counts, hops, base).len() + 1 < hops.len() ==> in_turn(
            counts_after(counts, hops),
            hops,
            base,
        ) && raised(counts_after(counts, hops), hops, base).len() == raised(counts, hops, base).len()
            + 1,
        raised(counts, hops, base).len() + 1 == hops.len() ==> in_turn(
            counts_after(counts, hops),
            hops,
            base + 1,
        ) && raised(counts_after(counts, hops), hops, base + 1).len() == 0,
{
    let before = raised(counts, hops, base);
    let waiting = choose|hop: PeerId| hops.contains(hop) && count_of(counts, hop) == base;
    lemma_len_subset(before, hops);
    before.lemma_subset_not_in_lt(hops, waiting);
    let first = lemma_first_exists(counts, hops);
    let last = lemma_last_exists(counts, hops);
    assert(count_of(counts, first) == base) by {
        lemma_rank_order(counts, first, waiting, first);
    }
    let after = counts_after(counts, hops);
    assert(after == counts.insert(first, (base + 1) as usize));
    assert forall|hop: PeerId| hops.contains(hop) implies count_of(after, hop) == if hop == first {
        base + 1
    } else {
        count_of(counts, hop) as int
    } by {}
    let now = raised(after, hops, base);
    assert(now =~= before.insert(first));
    if before.len() + 1 < hops.len() {
        assert(exists|hop: PeerId| hops.contains(hop) && !now.contains(hop)) by {
            if forall|hop: PeerId| hops.contains(hop) ==> now.contains(hop) {
                assert(now =~= hops);
            }
        }
        let still = choose|hop: PeerId| hops.contains(hop) && !now.contains(hop);
        assert(count_of(after, still) == base);
        assert forall|a: PeerId, b: PeerId|
            hops.contains(a) && hops.contains(b) && count_of(after, a) == base + 1 && b.precedes(
                &a,
            ) implies count_of(after, b) == base + 1 by {
            if b != first && count_of(counts, b) == base {
                if a == first {
                    lemma_rank_order(counts, first, b, first);
                    lemma_peer_order(first, b, first);
                }
            }
        }
    } else {
        lemma_len_subset(now, hops);
        lemma_subset_equality(now, hops);
        assert forall|hop: PeerId| hops.contains(hop) implies count_of(after, hop) == base + 1 by {
            assert(now.contains(hop));
        }
        assert(hops.contains(first) && count_of(after, first) == base + 1);
        assert(raised(after, hops, base + 1) =~= Set::<PeerId>::empty());
    }
}

/// The round and the place in it that `picks` lead to, counted in a
/// round of `size` places: the picks so far make `picks / size` whole
/// rounds and `picks % size` places of the next.
proof fn lemma_next_place(picks: int, size: int)
    requires
        0 <= picks,
        0 < size,
    ensures
        0 <= picks % size < size,
        picks % size + 1 < size ==> (picks + 1) / size == picks / size && (picks + 1) % size
            == picks % size + 1,
        picks % size + 1 == size ==> (picks + 1) / size == picks / size + 1 && (picks + 1) % size
            == 0,
{
    lemma_mod_bound(picks, size);
    lemma_fundamental_div_mod(picks, size);
    let q = picks / size;
    let m = picks % size;
    assert(size * q == q * size) by (nonlinear_arith);
    if m + 1 < size {
        lemma_fundamental_div_mod_converse(picks + 1, size, q, m + 1);
    } else {
        assert((q + 1) * size == q * size + size) by (nonlinear_arith);
        lemma_fundamental_div_mod_converse(picks + 1, size, q + 1, 0);
    }
}

/// The number of whole rounds that each hop has behind it after `n` more
/// picks among hops that are picked in turn.
pub open spec fn round_after(counts: Map<PeerId, usize>, hops: Set<PeerId>, base: int, n: nat) -> int {
    base + (raised(counts, hops, base).len() as int + n as int) / (hops.len() as int)
}

/// The number of hops that have had their turn in the round under way
/// after `n` more picks among hops that are picked in turn.
pub open spec fn place_after(counts: Map<PeerId, usize>, hops: Set<PeerId>, base: int, n: nat) -> int {
    (raised(counts, hops, base).len() as int + n as int) % (hops.len() as int)
}

/// Picks among hops that are picked in turn, any number of them: the
/// hops are still picked in turn, the turns that were had add up, and
/// each hop has gained what it was picked.
pub proof fn lemma_picks(counts: Map<PeerId, usize>, hops: Set<PeerId>, base: int, n: nat)
    requires
        hops.finite(),
        hops.len() > 0,
        in_turn(counts, hops, base),
        base + n + 1 <= usize::MAX,
    ensures
        raised(counts, hops, base).len() < hops.len(),
        in_turn(counts_after_picks(counts, hops, n), hops, round_after(counts, hops, base, n)),
        raised(
            counts_after_picks(counts, hops, n),
            hops,
            round_after(counts, hops, base, n),
        ).len() == place_after(counts, hops, base, n),
        forall|hop: PeerId|
            hops.contains(hop) ==> count_of(counts_after_picks(counts, hops, n), hop) == count_of(
                counts,
                hop,
            ) + times_picked(counts, hops, n, hop),
    decreases n,
{
    let size = hops.len() as int;
    let had = raised(counts, hops, base).len() as int;
    let waiting = choose|hop: PeerId| hops.contains(hop) && count_of(counts, hop) == base;
    lemma_len_subset(raised(counts, hops, base), hops);
    raised(counts, hops, base).lemma_subset_not_in_lt(hops, waiting);
    if n == 0 {
        lemma_fundamental_div_mod_converse(had, size, 0, had);
    } else {
        let earlier = (n - 1) as nat;
        lemma_picks(counts, hops, base, earlier);
        let then = counts_after_picks(counts, hops, earlier);
        let round = (had + earlier) / size;
        lemma_next_place(had + earlier, size);
        assert(round <= earlier) by {
            lemma_fundamental_div_mod(had + earlier, size);
            lemma_mod_bound(had + earlier, size);
            assert(round >= 0 && size >= 1 ==> size * round >= round) by (nonlinear_arith);
            if round > earlier {
                assert(size * round >= size * (earlier + 1)) by (nonlinear_arith)
                    requires
                        round >= earlier + 1,
                        size >= 1,
                ;
                assert(size * (earlier + 1) == size * earlier + size) by (nonlinear_arith);
                assert(size * earlier >= earlier) by (nonlinear_arith)
                    requires
                        size >= 1,
                        earlier >= 0,
                ;
            }
        }
        lemma_one_pick(then, hops, base + round);
        let picked = least_used(then, hops);
        assert(counts_after_picks(counts, hops, n) == counts_after(then, hops));
        assert forall|hop: PeerId| hops.contains(hop) implies count_of(
            counts_after_picks(counts, hops, n),
            hop,
        ) == count_of(counts, hop) + times_picked(counts, hops, n, hop) by {
            assert(count_of(then, hop) == count_of(counts, hop) + times_picked(
                counts,
                hops,
                earlier,
                hop,
            ));
        }
    }
}

/// Of two sets of hops that each hold, with any of their hops, all
/// smaller hops, the one that is no larger lies in the other.
pub proof fn lemma_lower_sets_nest(hops: Set<PeerId>, one: Set<PeerId>, other: Set<PeerId>)
    requires
        hops.finite(),
        one.subset_of(hops),
        other.subset_of(hops),
        forall|a: PeerId, b: PeerId|
            one.contains(a) && hops.contains(b) && b.precedes(&a) ==> one.contains(b),
        forall|a: PeerId, b: PeerId|
            other.contains(a) && hops.contains(b) && b.precedes(&a) ==> other.contains(b),
        one.len() <= other.len(),
    ensures
        one.subset_of(other),
{
    lemma_len_subset(one, hops);
    lemma_len_subset(other, hops);
    if !one.subset_of(other) {
        let a = choose|a: PeerId| one.contains(a) && !other.contains(a);
        assert forall|b: PeerId| other.contains(b) implies one.remove(a).contains(b) by {
            lemma_peer_order(a, b, a);
            if a.precedes(&b) {
                assert(other.contains(a));
            }
        }
        lemma_len_subset(other, one.remove(a));
    }
}

/// Round-robin fairness. Where hops are picked in turn, as they are from
/// a start at which all have the same use count, then in `n` picks among
/// `k` hops each hop is picked `n / k` times, rounded down or up.
pub proof fn lemma_fair(counts: Map<PeerId, usize>, hops: Set<PeerId>, base: int, n: nat, hop: PeerId)
    requires
        hops.finite(),
        hops.len() > 0,
        in_turn(counts, hops, base),
        base + n + 1 <= usize::MAX,
        hops.contains(hop),
    ensures
        (n as int) / (hops.len() as int) <= times_picked(counts, hops, n, hop) <= (n + hops.len()
            - 1) / (hops.len() as int),
{
    let size = hops.len() as int;
    let start = raised(counts, hops, base);
    let had = start.len() as int;
    lemma_picks(counts, hops, base, n);
    let then = counts_after_picks(counts, hops, n);
    let rounds = (had + n) / size;
    let place = (had + n) % size;
    let end = raised(then, hops, base + rounds);
    let times = times_picked(counts, hops, n, hop) as int;
    lemma_fundamental_div_mod(had + n, size);
    lemma_mod_bound(had + n, size);
    assert(size * rounds == rounds * size) by (nonlinear_arith);
    assert(times == rounds + (if end.contains(hop) {
        1int
    } else {
        0int
    }) - (if start.contains(hop) {
        1int
    } else {
        0int
    }));
    if had <= place {
        lemma_lower_sets_nest(hops, start, end);
        lemma_fundamental_div_mod_converse(n as int, size, rounds, place - had);
        if end.contains(hop) && !start.contains(hop) {
            lemma_len_subset(end, hops);
            start.lemma_subset_not_in_lt(end, hop);
        }
        if place == had {
            lemma_fundamental_div_mod_converse(n + size - 1, size, rounds, size - 1);
        } else {
            assert((rounds + 1) * size == rounds * size + size) by (nonlinear_arith);
            lemma_fundamental_div_mod_converse(n + size - 1, size, rounds + 1, place - had - 1);
        }
    } else {
        lemma_lower_sets_nest(hops, end, start);
        assert((rounds - 1) * size == rounds * size - size) by (nonlinear_arith);
        lemma_fundamental_div_mod_converse(n as int, size, rounds - 1, size + place - had);
        lemma_fundamental_div_mod_converse(n + size - 1, size, rounds, size + place - had - 1);
    }
}

/// A start at which all hops have the same use count is one from which
/// they are picked in turn.
pub proof fn lemma_level_start(counts: Map<PeerId, usize>, hops: Set<PeerId>, level: int)
    requires
        hops.len() > 0,
        hops.finite(),
        forall|hop: PeerId| hops.contains(hop) ==> count_of(counts, hop) == level,
    ensures
        in_turn(counts, hops, level),
{
    assert(hops.contains(hops.choose()));
}

} // verus!
