//! Street legs rebuilt from the choices a reduction kept, and the ride edges
//! of a vehicle between stops.

use crate::bytes::{equal, f64_equal};
use crate::reduction::{Snap, StreetCell, Winner};
use crate::street_costs::same_place;
use crate::text::ValueError;
use crate::transfers::{key_of, pair_key};
use std::collections::HashMap;
use vstd::prelude::*;

verus! {

pub const NO_STOP_PLACE: &'static str = "the stop has no coordinates to rebuild the street leg from";

pub const TOO_FAR: &'static str = "coordinate too far from the multimodal street network";

/// An end of a street leg: the coordinate and where it meets the streets.
#[derive(Debug, Clone, Copy)]
pub struct LegEnd {
    pub at: (u64, u64),
    pub snap: Snap,
}

/// How a street leg is rebuilt.
#[derive(Debug, Clone, Copy)]
pub enum LegPlan {
    /// No travel: both ends are one coordinate.
    Zero,
    Search { from: LegEnd, to: LegEnd },
}

/// The leg between a coordinate and a stop's kept link: towards the stop on
/// access, away from it on egress.
pub open spec fn stop_leg_outcome(
    at: (u64, u64),
    snap: Option<Snap>,
    stop: Option<(u64, u64)>,
    link: Snap,
    egress: bool,
) -> Result<LegPlan, Seq<char>> {
    match stop {
        None => Err(NO_STOP_PLACE@),
        Some(place) => if same_place(place, at) {
            Ok(LegPlan::Zero)
        } else {
            match snap {
                None => Err(TOO_FAR@),
                Some(snap) => {
                    let here = LegEnd { at, snap };
                    let there = LegEnd { at: place, snap: link };
                    if egress {
                        Ok(LegPlan::Search { from: there, to: here })
                    } else {
                        Ok(LegPlan::Search { from: here, to: there })
                    }
                },
            }
        },
    }
}

/// Plans the leg between a coordinate and a stop's kept link.
pub fn stop_leg(
    at: (u64, u64),
    snap: Option<Snap>,
    stop: Option<(u64, u64)>,
    link: Snap,
    egress: bool,
) -> (plan: Result<LegPlan, ValueError>)
    ensures
        match stop_leg_outcome(at, snap, stop, link, egress) {
            Ok(expected) => plan == Ok::<LegPlan, ValueError>(expected),
            Err(text) => plan matches Err(error) && error.message@ == text,
        },
{
    let place: (u64, u64) = match stop {
        Some(place) => place,
        None => return Err(ValueError::new(NO_STOP_PLACE.to_owned())),
    };
    if equal(place.0, at.0) && equal(place.1, at.1) {
        return Ok(LegPlan::Zero);
    }
    let snap: Snap = match snap {
        Some(snap) => snap,
        None => return Err(ValueError::new(TOO_FAR.to_owned())),
    };
    let here = LegEnd { at, snap };
    let there = LegEnd { at: place, snap: link };
    if egress {
        Ok(LegPlan::Search { from: there, to: here })
    } else {
        Ok(LegPlan::Search { from: here, to: there })
    }
}

/// The direct leg between two coordinates; none where either lies off the
/// streets.
pub fn direct_leg(
    origin: (u64, u64),
    destination: (u64, u64),
    from: Option<Snap>,
    to: Option<Snap>,
) -> (plan: Option<LegPlan>)
    ensures
        plan == if same_place(origin, destination) {
            Some(LegPlan::Zero)
        } else {
            match (from, to) {
                (Some(from), Some(to)) => Some(
                    (LegPlan::Search {
                        from: (LegEnd { at: origin, snap: from }),
                        to: (LegEnd { at: destination, snap: to }),
                    }),
                ),
                _ => None,
            }
        },
        plan is None <==> !same_place(origin, destination) && (from is None || to is None),
        plan matches Some(LegPlan::Search { from: start, to: end }) ==> start.at == origin && from
            == Some(start.snap) && end.at == destination && to == Some(end.snap),
{
    if equal(origin.0, destination.0) && equal(origin.1, destination.1) {
        return Some(LegPlan::Zero);
    }
    match (from, to) {
        (Some(from), Some(to)) => Some(
            LegPlan::Search {
                from: LegEnd { at: origin, snap: from },
                to: LegEnd { at: destination, snap: to },
            },
        ),
        _ => None,
    }
}

/// A rental along a merged transfer edge: where the vehicle is picked up and
/// dropped, its seconds and meters, and the walks around it.
#[derive(Debug, Clone, Copy, PartialEq, Eq, Structural)]
pub struct RideToken {
    pub pickup: u32,
    pub drop: u32,
    pub seconds: u32,
    pub network_meters: u64,
    pub total_meters: u64,
    pub pre_seconds: u32,
    pub post_seconds: u32,
}

/// Whether tokens stand in order of their keys, none twice.
pub open spec fn in_key_order(tokens: Seq<(u64, RideToken)>) -> bool {
    forall|i: int, j: int|
        0 <= i < j < tokens.len() ==> (#[trigger] tokens[i]).0 < (#[trigger] tokens[j]).0
}

/// Whether no two tokens have the same key.
pub open spec fn keys_differ(tokens: Seq<(u64, RideToken)>) -> bool {
    forall|i: int, j: int|
        0 <= i < j < tokens.len() ==> (#[trigger] tokens[i]).0 != (#[trigger] tokens[j]).0
}

/// The tokens of a merged transfer set as an artifact holds them: in order
/// of their keys, whatever order they were listed in.
pub fn saved_tokens(tokens: &Vec<(u64, RideToken)>) -> (saved: Vec<(u64, RideToken)>)
    requires
        keys_differ(tokens@),
    ensures
        in_key_order(saved@),
        saved@.to_multiset() == tokens@.to_multiset(),
{
    let mut saved: Vec<(u64, RideToken)> = Vec::new();
    let mut index: usize = 0;
    assert(tokens@.subrange(0, 0) =~= saved@);
    while index < tokens.len()
        invariant
            index <= tokens@.len(),
            keys_differ(tokens@),
            in_key_order(saved@),
            saved@.to_multiset() == tokens@.subrange(0, index as int).to_multiset(),
        decreases tokens.len() - index,
    {
        let token: (u64, RideToken) = tokens[index];
        let mut at: usize = saved.len();
        while at > 0 && saved[at - 1].0 > token.0
            invariant
                at <= saved@.len(),
                forall|i: int| at <= i < saved@.len() ==> (#[trigger] saved@[i]).0 > token.0,
            decreases at,
        {
            at -= 1;
        }
        let ghost before = saved@;
        proof {
            let listed = tokens@.subrange(0, index as int);
            assert forall|i: int| 0 <= i < before.len() implies (#[trigger] before[i]).0
                != token.0 by {
                lemma_same_pairs(before, listed, i);
                let k = choose|k: int| 0 <= k < listed.len() && listed[k] == before[i];
                assert(tokens@[k].0 != tokens@[index as int].0);
            }
            if at > 0 {
                assert(before[at - 1].0 < token.0);
            }
        }
        saved.insert(at, token);
        index += 1;
        proof {
            let head = before.subrange(0, at as int);
            let tail = before.subrange(at as int, before.len() as int);
            let listed = tokens@.subrange(0, index - 1);
            assert(tokens@.subrange(0, index as int) =~= listed.push(token));
            assert(saved@ =~= head.push(token) + tail);
            assert(before =~= head + tail);
            vstd::seq_lib::lemma_multiset_commutative(head, tail);
            vstd::seq_lib::lemma_multiset_commutative(head.push(token), tail);
            head.to_multiset_ensures();
            listed.to_multiset_ensures();
            assert(saved@.to_multiset() =~= before.to_multiset().insert(token));
            assert forall|i: int, j: int| 0 <= i < j < saved@.len() implies (
            #[trigger] saved@[i]).0 < (#[trigger] saved@[j]).0 by {
                if j < at {
                    assert(before[i].0 < before[j].0);
                } else if i > at {
                    assert(before[i - 1].0 < before[j - 1].0);
                } else if i < at && j > at {
                    assert(before[i].0 < before[j - 1].0);
                } else if i < at && i < at - 1 {
                    assert(before[i].0 < before[at - 1].0);
                } else if i == at {
                    assert(before[j - 1].0 > token.0);
                }
            }
        }
    }
    assert(tokens@.subrange(0, tokens@.len() as int) =~= tokens@);
    saved
}

proof fn lemma_same_pairs(ours: Seq<(u64, RideToken)>, theirs: Seq<(u64, RideToken)>, at: int)
    requires
        ours.to_multiset() == theirs.to_multiset(),
        0 <= at < ours.len(),
    ensures
        theirs.contains(ours[at]),
{
    ours.to_multiset_ensures();
    theirs.to_multiset_ensures();
    assert(ours.contains(ours[at]));
    assert(ours.to_multiset().count(ours[at]) > 0);
}

/// The same tokens are saved as the same list, so saving a network again
/// writes the same bytes for them.
pub proof fn law_saved_tokens_are_unique(left: Seq<(u64, RideToken)>, right: Seq<(u64, RideToken)>)
    requires
        in_key_order(left),
        in_key_order(right),
        left.to_multiset() == right.to_multiset(),
    ensures
        left == right,
    decreases left.len(),
{
    left.to_multiset_ensures();
    right.to_multiset_ensures();
    if left.len() == 0 {
        assert(left =~= right);
    } else {
        let end = left.len() - 1;
        lemma_same_pairs(left, right, end);
        lemma_same_pairs(right, left, end);
        let i = choose|i: int| 0 <= i < left.len() && left[i] == right[end];
        let j = choose|j: int| 0 <= j < right.len() && right[j] == left[end];
        assert(i == end || left[i].0 < left[end].0);
        assert(j == end || right[j].0 < right[end].0);
        assert(left.remove(end) =~= left.drop_last());
        assert(right.remove(end) =~= right.drop_last());
        law_saved_tokens_are_unique(left.drop_last(), right.drop_last());
        assert(left =~= left.drop_last().push(left[end]));
        assert(right =~= right.drop_last().push(right[end]));
    }
}

/// The leg of a rental's ride; none where an end has no link or no place.
pub fn ride_leg(
    token: RideToken,
    links: &Vec<Option<Snap>>,
    places: &Vec<Option<(u64, u64)>>,
) -> (ends: Option<(LegEnd, LegEnd)>)
    requires
        links@.len() == places@.len(),
        token.pickup < links@.len(),
        token.drop < links@.len(),
    ensures
        ends == match (
            links@[token.pickup as int],
            links@[token.drop as int],
            places@[token.pickup as int],
            places@[token.drop as int],
        ) {
            (Some(pickup), Some(drop), Some(from), Some(to)) => Some(
                ((LegEnd { at: from, snap: pickup }), (LegEnd { at: to, snap: drop })),
            ),
            _ => None,
        },
        ends matches Some((start, end)) ==> {
            &&& places@[token.pickup as int] == Some(start.at)
            &&& links@[token.pickup as int] == Some(start.snap)
            &&& places@[token.drop as int] == Some(end.at)
            &&& links@[token.drop as int] == Some(end.snap)
        },
{
    let pickup: usize = token.pickup as usize;
    let drop: usize = token.drop as usize;
    match (links[pickup], links[drop], places[pickup], places[drop]) {
        (Some(first), Some(last), Some(from), Some(to)) => Some(
            (LegEnd { at: from, snap: first }, LegEnd { at: to, snap: last }),
        ),
        _ => None,
    }
}

/// The cell of a meters-tracking row: it settles only at a linked stop.
/// `totals` are the street meters with both connectors.
pub open spec fn metered_cell(
    cell: Option<(u32, u64)>,
    link: Option<Snap>,
    total_m: u64,
) -> Option<StreetCell> {
    match (cell, link) {
        (Some((seconds, network_m)), Some(_)) => Some(
            StreetCell { seconds, network_m, total_m },
        ),
        _ => None,
    }
}

/// The cells of a meters-tracking row.
pub fn metered_cells(
    cells: &Vec<Option<(u32, u64)>>,
    links: &Vec<Option<Snap>>,
    totals: &Vec<u64>,
) -> (row: Vec<Option<StreetCell>>)
    requires
        cells@.len() == links@.len() == totals@.len(),
    ensures
        row@ == Seq::new(
            cells@.len(),
            |i: int| metered_cell(cells@[i], links@[i], totals@[i]),
        ),
{
    let mut row: Vec<Option<StreetCell>> = Vec::new();
    let mut index: usize = 0;
    while index < cells.len()
        invariant
            index <= cells@.len() == links@.len(),
            totals@.len() == cells@.len(),
            row@.len() == index,
            forall|i: int|
                0 <= i < index ==> #[trigger] row@[i] == metered_cell(
                    cells@[i],
                    links@[i],
                    totals@[i],
                ),
        decreases cells.len() - index,
    {
        row.push(
            match (cells[index], links[index]) {
                (Some((seconds, network_m)), Some(_)) => Some(
                    StreetCell { seconds, network_m, total_m: totals[index] },
                ),
                _ => None,
            },
        );
        index += 1;
    }
    assert(row@ =~= Seq::new(
        cells@.len(),
        |i: int| metered_cell(cells@[i], links@[i], totals@[i]),
    ));
    row
}

/// A vehicle's ride from one stop to another; meters are doubles' bits.
#[derive(Debug, Clone, Copy, PartialEq, Eq, Structural)]
pub struct RideEdge {
    pub to: u32,
    pub seconds: u32,
    pub network_meters: u64,
    pub total_meters: u64,
}

/// The rides off a stop among the first `count` cells: every other linked
/// stop the vehicle reaches.
pub open spec fn rides_upto(stop: int, row: Seq<Option<StreetCell>>, count: int) -> Seq<RideEdge>
    decreases count,
{
    if count <= 0 {
        Seq::empty()
    } else {
        let before = rides_upto(stop, row, count - 1);
        match row[count - 1] {
            Some(cell) => if count - 1 == stop {
                before
            } else {
                before.push(
                    RideEdge {
                        to: (count - 1) as u32,
                        seconds: cell.seconds,
                        network_meters: cell.network_m,
                        total_meters: cell.total_m,
                    },
                )
            },
            None => before,
        }
    }
}

/// The rides off a stop, by its meters-tracking row over the linked stops.
pub fn ride_edges(stop: usize, row: &Vec<Option<StreetCell>>) -> (rides: Vec<RideEdge>)
    requires
        row@.len() <= u32::MAX,
    ensures
        rides@ == rides_upto(stop as int, row@, row@.len() as int),
{
    let mut rides: Vec<RideEdge> = Vec::new();
    let mut index: usize = 0;
    while index < row.len()
        invariant
            index <= row@.len() <= u32::MAX,
            rides@ == rides_upto(stop as int, row@, index as int),
        decreases row.len() - index,
    {
        if index != stop {
            if let Some(cell) = row[index] {
                rides.push(
                    RideEdge {
                        to: index as u32,
                        seconds: cell.seconds,
                        network_meters: cell.network_m,
                        total_meters: cell.total_m,
                    },
                );
            }
        }
        index += 1;
    }
    rides
}

/// A stop's kept choice and the rental its carried transfer bears.
#[derive(Debug, Clone, Copy)]
pub struct KeptChoice {
    pub stop: u32,
    pub winner: Winner,
    pub ride: Option<RideToken>,
}

/// The key of the transfer a choice was carried by: towards the stop on
/// access, away from it on egress.
pub open spec fn carried_key(stop: u32, via: u32, egress: bool) -> u64 {
    if egress {
        pair_key(stop, via)
    } else {
        pair_key(via, stop)
    }
}

/// The rental a choice's carried transfer bears; `rides` gives a stop pair's
/// position among the tokens.
pub open spec fn carried_ride(
    stop: u32,
    winner: Winner,
    rides: Map<u64, usize>,
    tokens: Seq<RideToken>,
    egress: bool,
) -> Option<RideToken> {
    match winner.via {
        Some(via) => {
            let key = carried_key(stop, via, egress);
            if winner.transfer_rental && rides.contains_key(key) {
                Some(tokens[rides[key] as int])
            } else {
                None
            }
        },
        None => None,
    }
}

/// The kept choices among the first `count` stops.
pub open spec fn kept_upto(
    best: Seq<Option<Winner>>,
    rides: Map<u64, usize>,
    tokens: Seq<RideToken>,
    egress: bool,
    count: int,
) -> Seq<KeptChoice>
    decreases count,
{
    if count <= 0 {
        Seq::empty()
    } else {
        let before = kept_upto(best, rides, tokens, egress, count - 1);
        let stop = (count - 1) as u32;
        match best[count - 1] {
            Some(winner) => before.push(
                KeptChoice {
                    stop,
                    winner,
                    ride: carried_ride(stop, winner, rides, tokens, egress),
                },
            ),
            None => before,
        }
    }
}

pub open spec fn rides_in_range(rides: Map<u64, usize>, tokens: nat) -> bool {
    forall|key: u64| #[trigger] rides.contains_key(key) ==> rides[key] < tokens
}

/// The choices a reduction kept, by stop, with the rentals they carry.
pub fn reduced_choices(
    best: &Vec<Option<Winner>>,
    rides: &HashMap<u64, usize>,
    tokens: &Vec<RideToken>,
    egress: bool,
) -> (kept: Vec<KeptChoice>)
    requires
        best@.len() <= u32::MAX,
        rides_in_range(rides@, tokens@.len()),
    ensures
        kept@ == kept_upto(best@, rides@, tokens@, egress, best@.len() as int),
{
    broadcast use vstd::std_specs::hash::group_hash_axioms;

    let mut kept: Vec<KeptChoice> = Vec::new();
    let mut index: usize = 0;
    while index < best.len()
        invariant
            index <= best@.len() <= u32::MAX,
            rides_in_range(rides@, tokens@.len()),
            kept@ == kept_upto(best@, rides@, tokens@, egress, index as int),
        decreases best.len() - index,
    {
        if let Some(winner) = best[index] {
            let stop: u32 = index as u32;
            let ride: Option<RideToken> = match winner.via {
                Some(via) => {
                    let key: u64 = if egress {
                        key_of(stop, via)
                    } else {
                        key_of(via, stop)
                    };
                    match rides.get(&key) {
                        Some(position) => if winner.transfer_rental {
                            assert(rides@.contains_key(key));
                            Some(tokens[*position])
                        } else {
                            None
                        },
                        None => None,
                    }
                },
                None => None,
            };
            kept.push(KeptChoice { stop, winner, ride });
        }
        index += 1;
    }
    kept
}

/// A leg and its return are one search with the ends exchanged.
pub proof fn law_egress_mirrors_access(
    at: (u64, u64),
    snap: Option<Snap>,
    stop: Option<(u64, u64)>,
    link: Snap,
)
    ensures
        match stop_leg_outcome(at, snap, stop, link, false) {
            Ok(LegPlan::Search { from, to }) => stop_leg_outcome(at, snap, stop, link, true) == Ok::<
                LegPlan,
                Seq<char>,
            >((LegPlan::Search { from: to, to: from })),
            outcome => stop_leg_outcome(at, snap, stop, link, true) == outcome,
        },
{
}

/// No vehicle rides from a stop to itself.
pub proof fn law_no_ride_returns(stop: u32, row: Seq<Option<StreetCell>>, count: int, ride: int)
    requires
        0 <= count <= row.len() <= u32::MAX,
        0 <= ride < rides_upto(stop as int, row, count).len(),
    ensures
        rides_upto(stop as int, row, count)[ride].to != stop,
    decreases count,
{
    if count > 0 {
        if ride < rides_upto(stop as int, row, count - 1).len() {
            law_no_ride_returns(stop, row, count - 1, ride);
        }
    }
}

/// A leg to a stop needs the stop's coordinate. It is no travel where that is
/// the query's own, and otherwise needs the query's snap: it then runs between
/// the query's end and the stop's link, from the query on access and to it on
/// egress.
pub proof fn law_stop_legs_join_their_ends(
    at: (u64, u64),
    snap: Option<Snap>,
    stop: Option<(u64, u64)>,
    link: Snap,
    egress: bool,
)
    ensures
        ({
            let plan = stop_leg_outcome(at, snap, stop, link, egress);
            let here = stop is Some && f64_equal((stop->0).0, at.0) && f64_equal(
                (stop->0).1,
                at.1,
            );
            &&& stop is None ==> plan is Err
            &&& here ==> plan == Ok::<LegPlan, Seq<char>>(LegPlan::Zero)
            &&& stop is Some && !here && snap is None ==> plan is Err
            &&& stop is Some && !here && snap is Some ==> {
                &&& plan matches Ok(LegPlan::Search { from, to })
                &&& egress ==> from.at == stop->0 && from.snap == link && to.at == at && to.snap
                    == snap->0
                &&& !egress ==> to.at == stop->0 && to.snap == link && from.at == at && from.snap
                    == snap->0
            }
        }),
{
}

/// A metered cell stands where the search reached a linked stop, with the
/// search's seconds and network meters and the route's total.
pub proof fn law_metered_cells_keep_their_fields(
    cell: Option<(u32, u64)>,
    link: Option<Snap>,
    total_m: u64,
)
    ensures
        metered_cell(cell, link, total_m) is Some <==> cell is Some && link is Some,
        metered_cell(cell, link, total_m) matches Some(made) ==> made.seconds == (cell->0).0
            && made.network_m == (cell->0).1 && made.total_m == total_m,
{
}

/// The rides off a stop lead to every other stop its row reaches, once each,
/// in order, with that cell's seconds and meters.
pub proof fn law_rides_lead_to_the_reached_stops(
    stop: int,
    row: Seq<Option<StreetCell>>,
    count: int,
)
    requires
        0 <= count <= row.len() <= u32::MAX,
    ensures
        ({
            let rides = rides_upto(stop, row, count);
            &&& forall|s: int|
                0 <= s < count && s != stop && #[trigger] row[s] is Some ==> exists|k: int|
                    0 <= k < rides.len() && (#[trigger] rides[k]).to == s
            &&& forall|k: int|
                0 <= k < rides.len() ==> {
                    &&& (#[trigger] rides[k]).to < count && rides[k].to != stop
                    &&& row[rides[k].to as int] matches Some(cell)
                    &&& rides[k].seconds == cell.seconds
                    &&& rides[k].network_meters == cell.network_m
                    &&& rides[k].total_meters == cell.total_m
                }
            &&& forall|j: int, k: int|
                0 <= j < k < rides.len() ==> (#[trigger] rides[j]).to < (#[trigger] rides[k]).to
        }),
    decreases count,
{
    if count > 0 {
        law_rides_lead_to_the_reached_stops(stop, row, count - 1);
        let before = rides_upto(stop, row, count - 1);
        let rides = rides_upto(stop, row, count);
        assert forall|s: int|
            0 <= s < count && s != stop && #[trigger] row[s] is Some implies exists|k: int|
            0 <= k < rides.len() && (#[trigger] rides[k]).to == s by {
            if s < count - 1 {
                let k = choose|k: int| 0 <= k < before.len() && (#[trigger] before[k]).to == s;
                assert(rides[k].to == s);
            } else {
                assert(rides[rides.len() - 1].to == s);
            }
        }
    }
}

/// A choice bears a ride exactly where it was carried by a transfer that is a
/// rental and whose stop pair has one: from the stop it came by to its own on
/// access, and the other way on egress.
pub proof fn law_carried_rides_are_the_transfers(
    stop: u32,
    winner: Winner,
    rides: Map<u64, usize>,
    tokens: Seq<RideToken>,
    egress: bool,
)
    ensures
        ({
            let ride = carried_ride(stop, winner, rides, tokens, egress);
            &&& winner.via is None ==> ride is None
            &&& !winner.transfer_rental ==> ride is None
            &&& winner.via matches Some(via) ==> winner.transfer_rental ==> {
                let key = if egress {
                    (stop * 0x1_0000_0000 + via) as u64
                } else {
                    (via * 0x1_0000_0000 + stop) as u64
                };
                &&& rides.contains_key(key) ==> ride == Some(tokens[rides[key] as int])
                &&& !rides.contains_key(key) ==> ride is None
            }
        }),
{
}

/// The kept choices are the stops' winners, once each, in stop order, each
/// with the ride it was carried by.
pub proof fn law_kept_choices_are_the_winners(
    best: Seq<Option<Winner>>,
    rides: Map<u64, usize>,
    tokens: Seq<RideToken>,
    egress: bool,
    count: int,
)
    requires
        0 <= count <= best.len() <= u32::MAX,
    ensures
        ({
            let kept = kept_upto(best, rides, tokens, egress, count);
            &&& forall|s: int|
                0 <= s < count && #[trigger] best[s] is Some ==> exists|k: int|
                    0 <= k < kept.len() && (#[trigger] kept[k]).stop == s
            &&& forall|k: int|
                0 <= k < kept.len() ==> (#[trigger] kept[k]).stop < count
                    && best[kept[k].stop as int] == Some(kept[k].winner) && kept[k].ride
                    == carried_ride(kept[k].stop, kept[k].winner, rides, tokens, egress)
            &&& forall|j: int, k: int|
                0 <= j < k < kept.len() ==> (#[trigger] kept[j]).stop < (#[trigger] kept[k]).stop
        }),
    decreases count,
{
    if count > 0 {
        law_kept_choices_are_the_winners(best, rides, tokens, egress, count - 1);
        let before = kept_upto(best, rides, tokens, egress, count - 1);
        let kept = kept_upto(best, rides, tokens, egress, count);
        assert forall|s: int| 0 <= s < count && #[trigger] best[s] is Some implies exists|k: int|
            0 <= k < kept.len() && (#[trigger] kept[k]).stop == s by {
            if s < count - 1 {
                let k = choose|k: int| 0 <= k < before.len() && (#[trigger] before[k]).stop == s;
                assert(kept[k].stop == s);
            } else {
                assert(kept[kept.len() - 1].stop == s);
            }
        }
    }
}

} // verus!
