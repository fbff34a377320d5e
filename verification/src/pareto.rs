//! The Pareto street reduction: per stop, the frontier of street choices
//! over seconds and grams instead of the single fastest one.
//!
//! Grams are doubles' bits. Multiplying meters by factors and adding ride
//! grams happens outside; this module decides which points stay.

use crate::bytes::{f64_is_nan, f64_rank, is_nan, less, F64_INFINITY};
use crate::reduction::{beats, elect, Winner};
use vstd::prelude::*;

verus! {

/// A frontier point: a street choice, its grams (NaN where the mode's factor
/// is unresolved), and the transfer it was carried over, by its position in
/// the transfer set; none where the choice is direct.
#[derive(Debug, Clone, Copy, PartialEq, Eq, Structural)]
pub struct ParetoChoice {
    pub winner: Winner,
    pub grams: u64,
    pub slot: Option<usize>,
}

/// Grams on the number line; unresolved grams read as infinitely dirty.
pub open spec fn grams_key(grams: u64) -> int {
    if f64_is_nan(grams) {
        F64_INFINITY as int
    } else {
        f64_rank(grams)
    }
}

/// No worse on either criterion.
pub open spec fn no_worse(left: ParetoChoice, right: ParetoChoice) -> bool {
    left.winner.seconds <= right.winner.seconds && grams_key(left.grams) <= grams_key(right.grams)
}

/// Better on at least one of them.
pub open spec fn better(left: ParetoChoice, right: ParetoChoice) -> bool {
    left.winner.seconds < right.winner.seconds || grams_key(left.grams) < grams_key(right.grams)
}

/// Where a point comes in the order of the transfers: direct points first.
pub open spec fn slot_rank(slot: Option<usize>) -> int {
    match slot {
        None => -1,
        Some(slot) => slot as int,
    }
}

/// A carrying stop as a number: none before any.
pub open spec fn via_rank(via: Option<u32>) -> int {
    match via {
        None => -1,
        Some(stop) => stop as int,
    }
}

/// What settles a tie between points of one transfer: the stop they were
/// carried from, then whatever else tells them apart, the grams' bits last.
pub open spec fn settles(left: ParetoChoice, right: ParetoChoice) -> bool {
    let ours = left.winner;
    let theirs = right.winner;
    if via_rank(ours.via) != via_rank(theirs.via) {
        via_rank(ours.via) < via_rank(theirs.via)
    } else if ours.transfer_rental != theirs.transfer_rental {
        theirs.transfer_rental
    } else if ours.walk_transfer_m != theirs.walk_transfer_m {
        ours.walk_transfer_m < theirs.walk_transfer_m
    } else if ours.snap.edge != theirs.snap.edge {
        ours.snap.edge < theirs.snap.edge
    } else if ours.snap.fraction != theirs.snap.fraction {
        ours.snap.fraction < theirs.snap.fraction
    } else if ours.snap.connector != theirs.snap.connector {
        ours.snap.connector < theirs.snap.connector
    } else if ours.network_m != theirs.network_m {
        ours.network_m < theirs.network_m
    } else if ours.total_m != theirs.total_m {
        ours.total_m < theirs.total_m
    } else {
        left.grams < right.grams
    }
}

/// Fewer paid rentals, then the earlier mode; what still ties falls to the
/// direct point, then to the one carried over the earlier transfer. Of two
/// different points that tie on both criteria one outranks the other, so the
/// outcome never depends on which was inserted first.
pub open spec fn outranks(left: ParetoChoice, right: ParetoChoice) -> bool {
    if left.winner.rentals != right.winner.rentals {
        left.winner.rentals < right.winner.rentals
    } else if left.winner.order != right.winner.order {
        left.winner.order < right.winner.order
    } else if slot_rank(left.slot) != slot_rank(right.slot) {
        slot_rank(left.slot) < slot_rank(right.slot)
    } else {
        settles(left, right)
    }
}

/// A held point that leaves no room for a candidate.
pub open spec fn covers(held: ParetoChoice, candidate: ParetoChoice) -> bool {
    no_worse(held, candidate) && (better(held, candidate) || !outranks(candidate, held))
}

/// A candidate that a held point has to give way to.
pub open spec fn evicts(candidate: ParetoChoice, held: ParetoChoice) -> bool {
    no_worse(candidate, held) && (better(candidate, held) || outranks(candidate, held))
}

/// The frontier after one more candidate.
pub open spec fn inserted(frontier: Seq<ParetoChoice>, candidate: ParetoChoice) -> Seq<
    ParetoChoice,
> {
    if exists|i: int| 0 <= i < frontier.len() && covers(#[trigger] frontier[i], candidate) {
        frontier
    } else {
        frontier.filter(|held: ParetoChoice| !evicts(candidate, held)).push(candidate)
    }
}

/// The frontier after several more, in order.
pub open spec fn inserted_all(frontier: Seq<ParetoChoice>, candidates: Seq<ParetoChoice>) -> Seq<
    ParetoChoice,
>
    decreases candidates.len(),
{
    if candidates.len() == 0 {
        frontier
    } else {
        inserted(inserted_all(frontier, candidates.drop_last()), candidates.last())
    }
}

/// The frontier of a set of candidates.
pub open spec fn frontier_of(candidates: Seq<ParetoChoice>) -> Seq<ParetoChoice> {
    inserted_all(Seq::empty(), candidates)
}

fn exec_key_at_most(left: u64, right: u64) -> (at_most: bool)
    ensures
        at_most == (grams_key(left) <= grams_key(right)),
{
    let left: u64 = if is_nan(left) {
        F64_INFINITY
    } else {
        left
    };
    let right: u64 = if is_nan(right) {
        F64_INFINITY
    } else {
        right
    };
    !less(right, left)
}

fn exec_no_worse(left: &ParetoChoice, right: &ParetoChoice) -> (holds: bool)
    ensures
        holds == no_worse(*left, *right),
{
    left.winner.seconds <= right.winner.seconds && exec_key_at_most(left.grams, right.grams)
}

fn exec_better(left: &ParetoChoice, right: &ParetoChoice) -> (holds: bool)
    ensures
        holds == better(*left, *right),
{
    left.winner.seconds < right.winner.seconds || !exec_key_at_most(right.grams, left.grams)
}

fn exec_outranks(left: &ParetoChoice, right: &ParetoChoice) -> (holds: bool)
    ensures
        holds == outranks(*left, *right),
{
    if left.winner.rentals != right.winner.rentals {
        return left.winner.rentals < right.winner.rentals;
    }
    if left.winner.order != right.winner.order {
        return left.winner.order < right.winner.order;
    }
    match (left.slot, right.slot) {
        (None, Some(_)) => true,
        (Some(_), None) => false,
        (Some(ours), Some(theirs)) => if ours != theirs {
            ours < theirs
        } else {
            exec_settles(left, right)
        },
        (None, None) => exec_settles(left, right),
    }
}

fn exec_settles(left: &ParetoChoice, right: &ParetoChoice) -> (holds: bool)
    ensures
        holds == settles(*left, *right),
{
    let ours: Winner = left.winner;
    let theirs: Winner = right.winner;
    match (ours.via, theirs.via) {
        (None, Some(_)) => {
            return true;
        },
        (Some(_), None) => {
            return false;
        },
        (Some(from), Some(other)) => {
            if from != other {
                return from < other;
            }
        },
        (None, None) => {},
    }
    if ours.transfer_rental != theirs.transfer_rental {
        theirs.transfer_rental
    } else if ours.walk_transfer_m != theirs.walk_transfer_m {
        ours.walk_transfer_m < theirs.walk_transfer_m
    } else if ours.snap.edge != theirs.snap.edge {
        ours.snap.edge < theirs.snap.edge
    } else if ours.snap.fraction != theirs.snap.fraction {
        ours.snap.fraction < theirs.snap.fraction
    } else if ours.snap.connector != theirs.snap.connector {
        ours.snap.connector < theirs.snap.connector
    } else if ours.network_m != theirs.network_m {
        ours.network_m < theirs.network_m
    } else if ours.total_m != theirs.total_m {
        ours.total_m < theirs.total_m
    } else {
        left.grams < right.grams
    }
}

/// Inserts a candidate into a frontier over seconds and grams. Exact ties on
/// both resolve to fewer paid rentals, then the declared mode order, then the
/// order of the transfers, so that the frontier does not depend on the order
/// of insertion.
pub fn pareto_insert(frontier: &mut Vec<ParetoChoice>, candidate: ParetoChoice)
    ensures
        final(frontier)@ == inserted(old(frontier)@, candidate),
{
    let ghost start = frontier@;
    let mut index: usize = 0;
    while index < frontier.len()
        invariant
            index <= frontier@.len(),
            frontier@ == start,
            forall|i: int| 0 <= i < index ==> !covers(#[trigger] start[i], candidate),
        decreases frontier.len() - index,
    {
        let held: ParetoChoice = frontier[index];
        if exec_no_worse(&held, &candidate) && (exec_better(&held, &candidate) || !exec_outranks(
            &candidate,
            &held,
        )) {
            assert(covers(start[index as int], candidate));
            return;
        }
        index += 1;
    }
    let ghost keeps = |held: ParetoChoice| !evicts(candidate, held);
    let mut kept: Vec<ParetoChoice> = Vec::new();
    let mut scan: usize = 0;
    proof {
        assert(start.subrange(0, 0).filter(keeps) =~= Seq::empty()) by {
            reveal(Seq::filter);
        }
    }
    while scan < frontier.len()
        invariant
            scan <= frontier@.len(),
            frontier@ == start,
            keeps == (|held: ParetoChoice| !evicts(candidate, held)),
            kept@ == start.subrange(0, scan as int).filter(keeps),
        decreases frontier.len() - scan,
    {
        let held: ParetoChoice = frontier[scan];
        let evicted: bool = exec_no_worse(&candidate, &held) && (exec_better(&candidate, &held)
            || exec_outranks(&candidate, &held));
        proof {
            let upto = start.subrange(0, scan + 1);
            assert(upto.drop_last() =~= start.subrange(0, scan as int));
            reveal(Seq::filter);
        }
        if !evicted {
            kept.push(held);
        }
        scan += 1;
    }
    assert(start.subrange(0, start.len() as int) =~= start);
    kept.push(candidate);
    *frontier = kept;
}

/// What a frontier is to the candidates it was built from: its points come
/// from them, every candidate is covered by a point, and no point covers
/// another.
pub open spec fn is_frontier(frontier: Seq<ParetoChoice>, candidates: Seq<ParetoChoice>) -> bool {
    &&& forall|i: int| 0 <= i < frontier.len() ==> candidates.contains(#[trigger] frontier[i])
    &&& forall|c: int|
        0 <= c < candidates.len() ==> covered(frontier, #[trigger] candidates[c])
    &&& forall|i: int, j: int|
        0 <= i < frontier.len() && 0 <= j < frontier.len() && i != j ==> !covers(
            #[trigger] frontier[i],
            #[trigger] frontier[j],
        )
}

pub open spec fn covered(frontier: Seq<ParetoChoice>, candidate: ParetoChoice) -> bool {
    exists|i: int| 0 <= i < frontier.len() && covers(#[trigger] frontier[i], candidate)
}

/// A built frontier has the defining properties of one.
pub proof fn law_frontier(candidates: Seq<ParetoChoice>)
    ensures
        is_frontier(frontier_of(candidates), candidates),
    decreases candidates.len(),
{
    if candidates.len() > 0 {
        let before = candidates.drop_last();
        let candidate = candidates.last();
        law_frontier(before);
        lemma_insert_keeps_frontier(frontier_of(before), before, candidate);
        assert(before.push(candidate) =~= candidates);
    }
}

/// Where the kept elements of a sequence stand in it.
proof fn lemma_filter_positions(
    points: Seq<ParetoChoice>,
    keeps: spec_fn(ParetoChoice) -> bool,
) -> (positions: Seq<int>)
    ensures
        positions.len() == points.filter(keeps).len(),
        forall|i: int|
            0 <= i < positions.len() ==> {
                &&& 0 <= #[trigger] positions[i] < points.len()
                &&& points[positions[i]] == points.filter(keeps)[i]
                &&& keeps(points[positions[i]])
            },
        forall|i: int, j: int|
            0 <= i < j < positions.len() ==> #[trigger] positions[i] < #[trigger] positions[j],
    decreases points.len(),
{
    reveal(Seq::filter);
    if points.len() == 0 {
        Seq::empty()
    } else {
        let before = lemma_filter_positions(points.drop_last(), keeps);
        if keeps(points.last()) {
            before.push(points.len() - 1)
        } else {
            before
        }
    }
}

proof fn lemma_insert_keeps_frontier(
    frontier: Seq<ParetoChoice>,
    candidates: Seq<ParetoChoice>,
    candidate: ParetoChoice,
)
    requires
        is_frontier(frontier, candidates),
    ensures
        is_frontier(inserted(frontier, candidate), candidates.push(candidate)),
{
    let after = inserted(frontier, candidate);
    let more = candidates.push(candidate);
    if covered(frontier, candidate) {
        assert(after == frontier);
        assert forall|i: int| 0 <= i < after.len() implies more.contains(#[trigger] after[i]) by {
            let at = choose|at: int| 0 <= at < candidates.len() && candidates[at] == frontier[i];
            assert(more[at] == after[i]);
        }
        assert forall|c: int| 0 <= c < more.len() implies covered(after, #[trigger] more[c]) by {
            if c < candidates.len() {
                assert(more[c] == candidates[c]);
            }
        }
    } else {
        let keeps = |held: ParetoChoice| !evicts(candidate, held);
        let kept = frontier.filter(keeps);
        assert(after == kept.push(candidate));
        let positions = lemma_filter_positions(frontier, keeps);
        assert forall|i: int| 0 <= i < after.len() implies more.contains(#[trigger] after[i]) by {
            if i < kept.len() {
                let p = positions[i];
                assert(frontier[p] == kept[i]);
                let at = choose|at: int|
                    0 <= at < candidates.len() && candidates[at] == frontier[p];
                assert(more[at] == after[i]);
            } else {
                assert(more[more.len() - 1] == candidate);
            }
        }
        assert forall|c: int| 0 <= c < more.len() implies covered(after, #[trigger] more[c]) by {
            if c < candidates.len() {
                assert(more[c] == candidates[c]);
                let i = choose|i: int|
                    0 <= i < frontier.len() && covers(#[trigger] frontier[i], candidates[c]);
                if keeps(frontier[i]) {
                    assert(kept.contains(frontier[i])) by {
                        frontier.lemma_filter_contains(keeps, i);
                    }
                    let k = choose|k: int| 0 <= k < kept.len() && kept[k] == frontier[i];
                    assert(after[k] == frontier[i]);
                    assert(covers(after[k], more[c]));
                } else {
                    assert(covers(after[after.len() - 1], more[c]));
                }
            } else {
                assert(covers(after[after.len() - 1], more[c]));
            }
        }
        assert forall|i: int, j: int|
            0 <= i < after.len() && 0 <= j < after.len() && i != j implies !covers(
            #[trigger] after[i],
            #[trigger] after[j],
        ) by {
            if i < kept.len() && j < kept.len() {
                let p = positions[i];
                let q = positions[j];
                assert(!covers(frontier[p], frontier[q]));
            } else if i < kept.len() {
                let p = positions[i];
                assert(!covers(frontier[p], candidate));
            } else {
                let q = positions[j];
                assert(keeps(frontier[q]));
            }
        }
    }
}

/// The points of a frontier have pairwise different seconds, so a stop and
/// its seconds identify a point.
pub proof fn law_frontier_seconds_differ(
    frontier: Seq<ParetoChoice>,
    candidates: Seq<ParetoChoice>,
    i: int,
    j: int,
)
    requires
        is_frontier(frontier, candidates),
        0 <= i < frontier.len(),
        0 <= j < frontier.len(),
        i != j,
    ensures
        frontier[i].winner.seconds != frontier[j].winner.seconds,
{
    assert(!covers(frontier[i], frontier[j]));
    assert(!covers(frontier[j], frontier[i]));
}

/// Whether no candidate of a set evicts a point.
pub open spec fn unbeaten(candidates: Seq<ParetoChoice>, point: ParetoChoice) -> bool {
    forall|c: int| 0 <= c < candidates.len() ==> !evicts(#[trigger] candidates[c], point)
}

/// A frontier holds exactly the candidates that no other evicts.
pub proof fn law_frontier_is_the_unbeaten(
    frontier: Seq<ParetoChoice>,
    candidates: Seq<ParetoChoice>,
    point: ParetoChoice,
)
    requires
        is_frontier(frontier, candidates),
    ensures
        frontier.contains(point) <==> candidates.contains(point) && unbeaten(candidates, point),
{
    if frontier.contains(point) {
        let i = choose|i: int| 0 <= i < frontier.len() && frontier[i] == point;
        assert(candidates.contains(frontier[i]));
        assert forall|c: int| 0 <= c < candidates.len() implies !evicts(
            #[trigger] candidates[c],
            point,
        ) by {
            assert(covered(frontier, candidates[c]));
            let k = choose|k: int|
                0 <= k < frontier.len() && covers(#[trigger] frontier[k], candidates[c]);
            if k != i {
                assert(!covers(frontier[k], frontier[i]));
            }
        }
    }
    if candidates.contains(point) && unbeaten(candidates, point) {
        let c = choose|c: int| 0 <= c < candidates.len() && candidates[c] == point;
        assert(covered(frontier, candidates[c]));
        let k = choose|k: int|
            0 <= k < frontier.len() && covers(#[trigger] frontier[k], candidates[c]);
        assert(candidates.contains(frontier[k]));
        let at = choose|at: int| 0 <= at < candidates.len() && candidates[at] == frontier[k];
        assert(!evicts(candidates[at], point));
        assert(frontier[k] == point);
    }
}

proof fn lemma_unbeaten_by_fewer(
    candidates: Seq<ParetoChoice>,
    fewer: Seq<ParetoChoice>,
    point: ParetoChoice,
)
    requires
        forall|other: ParetoChoice| fewer.contains(other) ==> candidates.contains(other),
        unbeaten(candidates, point),
    ensures
        unbeaten(fewer, point),
{
    assert forall|c: int| 0 <= c < fewer.len() implies !evicts(#[trigger] fewer[c], point) by {
        assert(fewer.contains(fewer[c]));
        let at = choose|at: int| 0 <= at < candidates.len() && candidates[at] == fewer[c];
        assert(!evicts(candidates[at], point));
    }
}

/// What the same candidates leave in one order, they leave in another.
proof fn lemma_same_points(left: Seq<ParetoChoice>, right: Seq<ParetoChoice>, point: ParetoChoice)
    requires
        forall|other: ParetoChoice| left.contains(other) <==> right.contains(other),
        frontier_of(left).contains(point),
    ensures
        frontier_of(right).contains(point),
{
    law_frontier(left);
    law_frontier(right);
    law_frontier_is_the_unbeaten(frontier_of(left), left, point);
    law_frontier_is_the_unbeaten(frontier_of(right), right, point);
    lemma_unbeaten_by_fewer(left, right, point);
}

/// A frontier is a pure function of its candidates: the same candidates,
/// inserted in any order, leave the same points, and no point twice.
pub proof fn law_frontier_ignores_order(left: Seq<ParetoChoice>, right: Seq<ParetoChoice>)
    requires
        forall|point: ParetoChoice| left.contains(point) <==> right.contains(point),
    ensures
        frontier_of(left).to_set() == frontier_of(right).to_set(),
        frontier_of(left).to_multiset() == frontier_of(right).to_multiset(),
{
    let ours = frontier_of(left);
    let theirs = frontier_of(right);
    assert forall|point: ParetoChoice| ours.contains(point) <==> theirs.contains(point) by {
        if ours.contains(point) {
            lemma_same_points(left, right, point);
        }
        if theirs.contains(point) {
            lemma_same_points(right, left, point);
        }
    }
    assert(ours.to_set() =~= theirs.to_set());
    lemma_no_point_twice(left);
    lemma_no_point_twice(right);
    lemma_counted_once(ours, theirs);
}

/// Points without duplicates are counted by what they hold.
proof fn lemma_counted_once(ours: Seq<ParetoChoice>, theirs: Seq<ParetoChoice>)
    requires
        ours.no_duplicates(),
        theirs.no_duplicates(),
        forall|point: ParetoChoice| ours.contains(point) <==> theirs.contains(point),
    ensures
        ours.to_multiset() == theirs.to_multiset(),
{
    ours.lemma_multiset_has_no_duplicates();
    theirs.lemma_multiset_has_no_duplicates();
    ours.to_multiset_ensures();
    theirs.to_multiset_ensures();
    assert forall|point: ParetoChoice| #[trigger] ours.to_multiset().count(point)
        == theirs.to_multiset().count(point) by {
        assert(ours.contains(point) <==> ours.to_multiset().count(point) > 0);
        assert(theirs.contains(point) <==> theirs.to_multiset().count(point) > 0);
        if ours.contains(point) {
            assert(ours.to_multiset().contains(point));
            assert(theirs.to_multiset().contains(point));
        }
    }
    assert(ours.to_multiset() =~= theirs.to_multiset());
}

proof fn lemma_no_point_twice(candidates: Seq<ParetoChoice>)
    ensures
        frontier_of(candidates).no_duplicates(),
{
    law_frontier(candidates);
    let frontier = frontier_of(candidates);
    assert forall|i: int, j: int|
        0 <= i < frontier.len() && 0 <= j < frontier.len() && i != j implies frontier[i]
        != frontier[j] by {
        assert(!covers(frontier[i], frontier[j]));
    }
}

pub open spec fn winners(points: Seq<ParetoChoice>) -> Seq<Winner> {
    points.map_values(|point: ParetoChoice| point.winner)
}

/// Whether points that tie on time, rentals and mode stand in the order that
/// settles them.
pub open spec fn ties_in_order(points: Seq<ParetoChoice>) -> bool {
    forall|i: int, j: int|
        0 <= i < j < points.len() && (#[trigger] points[i]).winner.seconds == (
        #[trigger] points[j]).winner.seconds && points[i].winner.rentals
            == points[j].winner.rentals && points[i].winner.order == points[j].winner.order
            ==> !outranks(points[j], points[i])
}

/// Where no choice is cleaner than another (with every factor zero, say) the
/// frontier is the time-only election over the candidates in their order:
/// one point, the elected winner.
pub proof fn law_equal_grams_leave_the_fastest(candidates: Seq<ParetoChoice>, key: int)
    requires
        ties_in_order(candidates),
        forall|i: int|
            0 <= i < candidates.len() ==> grams_key((#[trigger] candidates[i]).grams) == key,
    ensures
        match elect(winners(candidates)) {
            None => frontier_of(candidates).len() == 0,
            Some(winner) => frontier_of(candidates).len() == 1 && frontier_of(candidates)[0].winner
                == winner && grams_key(frontier_of(candidates)[0].grams) == key,
        },
    decreases candidates.len(),
{
    if candidates.len() > 0 {
        let before = candidates.drop_last();
        let candidate = candidates.last();
        assert(winners(candidates).drop_last() =~= winners(before));
        assert forall|i: int| 0 <= i < before.len() implies grams_key(
            (#[trigger] before[i]).grams,
        ) == key by {
            assert(before[i] == candidates[i]);
        }
        assert forall|i: int, j: int|
            0 <= i < j < before.len() && (#[trigger] before[i]).winner.seconds == (
            #[trigger] before[j]).winner.seconds && before[i].winner.rentals
                == before[j].winner.rentals && before[i].winner.order
                == before[j].winner.order implies !outranks(before[j], before[i]) by {
            assert(before[i] == candidates[i] && before[j] == candidates[j]);
        }
        law_equal_grams_leave_the_fastest(before, key);
        assert(grams_key(candidates[candidates.len() - 1].grams) == key);
        let frontier = frontier_of(before);
        let keeps = |held: ParetoChoice| !evicts(candidate, held);
        reveal_with_fuel(Seq::filter, 2);
        if frontier.len() == 1 {
            let held = frontier[0];
            law_frontier(before);
            assert(before.contains(held));
            let at = choose|at: int| 0 <= at < before.len() && before[at] == held;
            assert(candidates[at] == held && candidates[candidates.len() - 1] == candidate);
            assert(covers(held, candidate) == !beats(candidate.winner, held.winner));
            assert(frontier.drop_last() =~= Seq::empty());
        }
        assert(frontier_of(candidates) == inserted(frontier, candidate));
    }
}

/// Whether grams are no more than others; grams that are not known are more
/// than any known ones, short of grams without bound.
pub open spec fn no_dirtier(left: u64, right: u64) -> bool {
    ||| f64_is_nan(right)
    ||| right == F64_INFINITY
    ||| !f64_is_nan(left) && f64_rank(left) <= f64_rank(right)
}

/// Whether one point is no slower and no dirtier than another.
pub open spec fn no_worse_than(left: ParetoChoice, right: ParetoChoice) -> bool {
    left.winner.seconds <= right.winner.seconds && no_dirtier(left.grams, right.grams)
}

/// Whether some point of a frontier is no slower and no dirtier than a
/// candidate.
pub open spec fn matched(frontier: Seq<ParetoChoice>, candidate: ParetoChoice) -> bool {
    exists|i: int| 0 <= i < frontier.len() && no_worse_than(#[trigger] frontier[i], candidate)
}

/// Every candidate has a point on the frontier that is no slower and no
/// dirtier.
pub proof fn law_frontier_matches_every_candidate(candidates: Seq<ParetoChoice>, candidate: int)
    requires
        0 <= candidate < candidates.len(),
    ensures
        matched(frontier_of(candidates), candidates[candidate]),
{
    law_frontier(candidates);
    assert(covered(frontier_of(candidates), candidates[candidate]));
    lemma_covered_is_matched(frontier_of(candidates), candidates[candidate]);
}

/// A frontier's points are candidates, and of two of them the faster one is
/// the dirtier: neither is no slower and no dirtier than the other.
pub proof fn law_frontier_trades_time_for_grams(
    candidates: Seq<ParetoChoice>,
    left: int,
    right: int,
)
    requires
        0 <= left < frontier_of(candidates).len(),
        0 <= right < frontier_of(candidates).len(),
        left != right,
    ensures
        candidates.contains(frontier_of(candidates)[left]),
        !no_worse_than(frontier_of(candidates)[left], frontier_of(candidates)[right]),
{
    let frontier = frontier_of(candidates);
    law_frontier(candidates);
    lemma_points_apart(frontier, candidates, left, right);
    lemma_uncovered_is_worse(frontier[left], frontier[right]);
}

proof fn lemma_points_apart(
    frontier: Seq<ParetoChoice>,
    candidates: Seq<ParetoChoice>,
    left: int,
    right: int,
)
    requires
        is_frontier(frontier, candidates),
        0 <= left < frontier.len(),
        0 <= right < frontier.len(),
        left != right,
    ensures
        candidates.contains(frontier[left]),
        !covers(frontier[left], frontier[right]),
        !covers(frontier[right], frontier[left]),
{
}

proof fn lemma_covered_is_matched(frontier: Seq<ParetoChoice>, candidate: ParetoChoice)
    requires
        covered(frontier, candidate),
    ensures
        matched(frontier, candidate),
{
    let i = choose|i: int| 0 <= i < frontier.len() && covers(#[trigger] frontier[i], candidate);
    lemma_no_worse_in_fields(frontier[i], candidate);
    assert(no_worse_than(frontier[i], candidate));
}

proof fn lemma_uncovered_is_worse(left: ParetoChoice, right: ParetoChoice)
    requires
        !covers(left, right),
        !covers(right, left),
    ensures
        !no_worse_than(left, right),
{
    lemma_no_worse_in_fields(left, right);
    lemma_no_worse_in_fields(right, left);
}

/// A candidate that equals a frontier's point in time and grams has no fewer
/// rentals than it, and with as many comes of no earlier mode.
pub proof fn law_frontier_ties_fall_to_fewer_rentals(
    candidates: Seq<ParetoChoice>,
    point: ParetoChoice,
    other: int,
)
    requires
        frontier_of(candidates).contains(point),
        0 <= other < candidates.len(),
        no_worse_than(point, candidates[other]),
        no_worse_than(candidates[other], point),
    ensures
        point.winner.rentals <= candidates[other].winner.rentals,
        point.winner.rentals == candidates[other].winner.rentals ==> point.winner.order
            <= candidates[other].winner.order,
{
    law_frontier(candidates);
    law_frontier_is_the_unbeaten(frontier_of(candidates), candidates, point);
    assert(!evicts(candidates[other], point));
    lemma_no_worse_in_fields(candidates[other], point);
}

proof fn lemma_no_worse_in_fields(left: ParetoChoice, right: ParetoChoice)
    ensures
        no_worse_than(left, right) == no_worse(left, right),
{
    assert(!f64_is_nan(left.grams) ==> f64_rank(left.grams) <= F64_INFINITY);
    assert(!f64_is_nan(right.grams) && f64_rank(right.grams) == F64_INFINITY ==> right.grams
        == F64_INFINITY);
}

} // verus!
