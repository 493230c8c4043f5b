//! A tour through all items and the local search that shortens it.

use crate::perceptual::hamming_distance;
use crate::spanning::edge_weight;
use crate::{fingerprints, ImageEntry};
use std::time::{Duration, Instant};
use vstd::prelude::*;
use vstd::seq_lib::to_multiset_update;

verus! {

/// A point in time. Nothing in this library looks inside one.
#[verifier::external_type_specification]
#[verifier::external_body]
pub struct ExInstant(Instant);

/// `Instant::now` of std reads the clock. Nothing is claimed of what it returns.
pub assume_specification[ Instant::now ]() -> (now: Instant)
;

/// `Instant::elapsed` of std gives the time since the instant. Nothing is
/// claimed of what it returns.
pub assume_specification[ Instant::elapsed ](start: &Instant) -> (since: Duration)
;

/// `Duration::as_millis` of std gives a duration in whole milliseconds.
/// Nothing is claimed of what it returns.
pub assume_specification[ Duration::as_millis ](span: &Duration) -> (millis: u128)
;

/// A position of a tour of `len` items, drawn by fastrand's `usize` from the
/// range `0..len`, which must not be empty. The position is within the tour;
/// nothing else is claimed of it.
#[verifier::external_body]
fn random_position(len: usize) -> (at: usize)
    requires
        len > 0,
    ensures
        at < len,
{
    fastrand::usize(0..len)
}

/// Every item of the tour is one of the `n` items.
pub open spec fn within(tour: Seq<usize>, n: nat) -> bool {
    forall|i: int| 0 <= i < tour.len() ==> (#[trigger] tour[i]) < n
}

/// Cost of the first `k` items of a tour: the sum of the distances between
/// neighbours. The path is open; its last item is not joined to its first.
pub open spec fn tour_cost_upto(fp: Seq<u64>, tour: Seq<usize>, k: nat) -> nat
    decreases k,
{
    if k <= 1 {
        0
    } else {
        tour_cost_upto(fp, tour, (k - 1) as nat) + edge_weight(
            fp,
            tour[k - 2] as int,
            tour[k - 1] as int,
        )
    }
}

/// Cost of a tour.
pub open spec fn tour_cost(fp: Seq<u64>, tour: Seq<usize>) -> nat {
    tour_cost_upto(fp, tour, tour.len())
}

/// The tour with the items at the positions `a` and `b` exchanged.
pub open spec fn swapped(tour: Seq<usize>, a: int, b: int) -> Seq<usize> {
    tour.update(a, tour[b]).update(b, tour[a])
}

/// The tour after one move of the local search at the positions `a` and `b`:
/// the items there are exchanged if that makes the tour strictly cheaper,
/// and the tour is as before if not.
pub open spec fn after_move(fp: Seq<u64>, tour: Seq<usize>, a: int, b: int) -> Seq<usize> {
    if tour_cost(fp, swapped(tour, a, b)) < tour_cost(fp, tour) {
        swapped(tour, a, b)
    } else {
        tour
    }
}

/// The tour after a run of moves, each at a pair of positions, the first
/// move first.
pub open spec fn after_moves(fp: Seq<u64>, tour: Seq<usize>, moves: Seq<(int, int)>) -> Seq<usize>
    decreases moves.len(),
{
    if moves.len() == 0 {
        tour
    } else {
        after_move(fp, after_moves(fp, tour, moves.drop_last()), moves.last().0, moves.last().1)
    }
}

/// Every move is at two positions of a tour of `len` items.
pub open spec fn moves_within(moves: Seq<(int, int)>, len: nat) -> bool {
    forall|i: int|
        0 <= i < moves.len() ==> 0 <= (#[trigger] moves[i]).0 < len && 0 <= moves[i].1 < len
}

/// Exchanging two items of a tour keeps its items.
pub proof fn lemma_swapped_keeps_items(tour: Seq<usize>, a: int, b: int)
    requires
        0 <= a < tour.len(),
        0 <= b < tour.len(),
    ensures
        swapped(tour, a, b).len() == tour.len(),
        swapped(tour, a, b).to_multiset() == tour.to_multiset(),
        forall|n: nat| within(tour, n) ==> within(swapped(tour, a, b), n),
{
    broadcast use {vstd::multiset::group_multiset_axioms, vstd::multiset::group_multiset_properties};

    let half = tour.update(a, tour[b]);
    to_multiset_update(tour, a, tour[b]);
    to_multiset_update(half, b, tour[a]);
    if a == b {
        assert(swapped(tour, a, b) =~= tour);
    } else {
        let items = tour.to_multiset();
        tour.to_multiset_ensures();
        assert(tour.contains(tour[a]));
        assert(tour.contains(tour[b]));
        assert(items.count(tour[a]) > 0);
        assert(items.count(tour[b]) > 0);
        assert(half[b] == tour[b]);
        assert(swapped(tour, a, b).to_multiset() == items.insert(tour[b]).remove(tour[a]).insert(
            tour[a],
        ).remove(tour[b]));
        assert forall|v: usize|
            items.insert(tour[b]).remove(tour[a]).insert(tour[a]).remove(tour[b]).count(v)
                == items.count(v) by {}
        assert(swapped(tour, a, b).to_multiset() =~= items);
    }
    assert forall|n: nat| within(tour, n) implies within(swapped(tour, a, b), n) by {
        assert forall|i: int| 0 <= i < tour.len() implies (#[trigger] swapped(tour, a, b)[i]) < n by {
            assert(tour[a] < n && tour[b] < n && tour[i] < n);
        }
    }
}

/// The cost of a tour.
pub fn tour_cost_of(circuit: &Vec<usize>, nodes: &Vec<ImageEntry>) -> (cost: u128)
    requires
        within(circuit@, nodes@.len()),
    ensures
        cost == tour_cost(fingerprints(nodes@), circuit@),
{
    let len = circuit.len();
    if len == 0 {
        return 0;
    }
    let mut cost: u128 = 0;
    let mut k: usize = 1;
    while k < len
        invariant
            len == circuit@.len(),
            1 <= k <= len,
            within(circuit@, nodes@.len()),
            cost == tour_cost_upto(fingerprints(nodes@), circuit@, k as nat),
            cost <= 64 * k,
        decreases len - k,
    {
        let hash_i = nodes[circuit[k - 1]].hash;
        let hash_j = nodes[circuit[k]].hash;
        cost = cost + hamming_distance(hash_i, hash_j) as u128;
        k = k + 1;
    }
    cost
}

/// One move of the local search: exchanges the items at the positions `a`
/// and `b` if that makes the tour cheaper, and leaves the tour as it is if
/// not. `cost` is the cost of the tour before the move; the cost after it is
/// returned.
pub fn try_swap(
    circuit: &mut Vec<usize>,
    nodes: &Vec<ImageEntry>,
    a: usize,
    b: usize,
    cost: u128,
) -> (new_cost: u128)
    requires
        a < old(circuit)@.len(),
        b < old(circuit)@.len(),
        within(old(circuit)@, nodes@.len()),
        cost == tour_cost(fingerprints(nodes@), old(circuit)@),
    ensures
        new_cost == tour_cost(fingerprints(nodes@), final(circuit)@),
        final(circuit)@ == if tour_cost(
            fingerprints(nodes@),
            swapped(old(circuit)@, a as int, b as int),
        ) < cost {
            swapped(old(circuit)@, a as int, b as int)
        } else {
            old(circuit)@
        },
{
    if a == b {
        assert(swapped(circuit@, a as int, b as int) =~= circuit@);
        return cost;
    }
    proof {
        lemma_swapped_keeps_items(circuit@, a as int, b as int);
    }
    let at_a = circuit[a];
    let at_b = circuit[b];
    circuit.set(a, at_b);
    circuit.set(b, at_a);
    let new_cost = tour_cost_of(circuit, nodes);
    if new_cost < cost {
        new_cost
    } else {
        circuit.set(a, at_a);
        circuit.set(b, at_b);
        assert(circuit@ =~= old(circuit)@);
        cost
    }
}

/// Whether the search may try another move: only while fewer than
/// `max_iterations` moves were tried and fewer than `max_time` milliseconds
/// have passed.
pub fn budget_left(iterations: u64, max_iterations: u64, elapsed: u128, max_time: u128) -> (go:
    bool)
    ensures
        go == (elapsed < max_time && iterations < max_iterations),
{
    elapsed < max_time && iterations < max_iterations
}

/// Shortens a tour by local search: draws two positions at random, exchanges
/// the items there if that makes the tour cheaper, and goes on until
/// `max_iterations` moves were tried or `max_time` milliseconds have passed.
/// The clock is read once before each move. A tour of fewer than two items
/// is left alone. What comes out is the tour after a run of such moves, no
/// more than `max_iterations` of them; how many and where, chance and the
/// clock decide.
pub fn iteratively_improve_tour(
    max_iterations: u64,
    max_time: u128,
    circuit: &mut Vec<usize>,
    nodes: &Vec<ImageEntry>,
)
    requires
        within(old(circuit)@, nodes@.len()),
    ensures
        final(circuit)@.len() == old(circuit)@.len(),
        final(circuit)@.to_multiset() == old(circuit)@.to_multiset(),
        within(final(circuit)@, nodes@.len()),
        tour_cost(fingerprints(nodes@), final(circuit)@) <= tour_cost(
            fingerprints(nodes@),
            old(circuit)@,
        ),
        max_iterations == 0 || max_time == 0 || old(circuit)@.len() <= 1 ==> final(circuit)@ == old(
            circuit,
        )@,
        exists|moves: Seq<(int, int)>|
            moves.len() <= max_iterations && moves_within(moves, old(circuit)@.len())
                && final(circuit)@ == #[trigger] after_moves(
                fingerprints(nodes@),
                old(circuit)@,
                moves,
            ),
{
    let len = circuit.len();
    let ghost mut moves: Seq<(int, int)> = Seq::empty();
    if len <= 1 {
        assert(circuit@ == after_moves(fingerprints(nodes@), old(circuit)@, moves));
        return;
    }
    let t0 = Instant::now();
    let mut iterations: u64 = 0;
    let mut cost = tour_cost_of(circuit, nodes);
    loop
        invariant
            moves.len() == iterations,
            moves_within(moves, len as nat),
            circuit@ == after_moves(fingerprints(nodes@), old(circuit)@, moves),
            len == circuit@.len(),
            len > 1,
            circuit@.len() == old(circuit)@.len(),
            circuit@.to_multiset() == old(circuit)@.to_multiset(),
            within(circuit@, nodes@.len()),
            cost == tour_cost(fingerprints(nodes@), circuit@),
            cost <= tour_cost(fingerprints(nodes@), old(circuit)@),
            iterations <= max_iterations,
            iterations == 0 ==> circuit@ == old(circuit)@,
            max_time == 0 ==> iterations == 0,
        decreases max_iterations - iterations,
    {
        let spent = t0.elapsed().as_millis();
        if !budget_left(iterations, max_iterations, spent, max_time) {
            break;
        }
        let a = random_position(len);
        let b = random_position(len);
        proof {
            lemma_swapped_keeps_items(circuit@, a as int, b as int);
        }
        let ghost before = circuit@;
        cost = try_swap(circuit, nodes, a, b, cost);
        iterations = iterations + 1;
        proof {
            let longer = moves.push((a as int, b as int));
            assert(longer.drop_last() =~= moves);
            assert(circuit@ == after_move(fingerprints(nodes@), before, a as int, b as int));
            moves = longer;
        }
    }
}

} // verus!
