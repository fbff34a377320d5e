//! Times to every stop from one place, and the time matrix of a street
//! policy.

use crate::arrive_by::{
    arrive_by_point_cell, best_arrival, duration_of, law_cell_durations,
    law_point_journeys_leave_last, made_from, no_better, point_arrivals, states_forward,
    ReverseState,
};
use crate::bytes::f64_is_finite;
use crate::checks::{fault_if, installed_streets, NO_STREETS};
use crate::dispatch::{ultra_active, whole_day};
use crate::ids::{refused_for, Fault, Refusal};
use crate::links::{
    coordinate_fault, coordinate_links, earliest, ends_at, exec_after_walk, exec_earlier,
    law_earliest_adds_the_walk, offsets_of, request_offsets, QueryPoint,
};
use crate::options::validated_walking_speed;
use crate::plans::{
    first_of, is_earliest, key_of, lemma_earliest_of_four, moment_outcome, stop_id, value,
    value_of, walk_fault, Moment, NetworkFacts, WalkOptions,
};
use crate::queries::{at_clock, clock_outcome, days_outcome, on_days};
use crate::time_rows::{departs_by, lemma_earliest_departs, taken_over, UNREACHABLE};
use vstd::prelude::*;

verus! {

/// How a one-to-all time query is answered.
#[derive(Debug, Clone, Copy, PartialEq, Eq, Structural)]
pub enum TimesRoute {
    /// Backwards from the place as the destination, over the closure.
    Reverse,
    /// From the place's street links over the whole-day shortcuts, with one
    /// bounded final walk.
    DoorToDoor,
    /// From the place over the closure.
    Closure,
}

/// A one-to-all time query, resolved: the stops its place is left or reached
/// by, in seconds, its moment and how it is answered.
pub struct TimesRequest {
    pub offsets: Vec<(u32, u32)>,
    pub moment: Moment,
    pub route: TimesRoute,
}

/// The route of a query: a deadline never claims the shortcuts, nor does a
/// query with exclusions.
pub open spec fn times_route(arrive_by: bool, excluded: bool, facts: NetworkFacts) -> TimesRoute {
    if arrive_by {
        TimesRoute::Reverse
    } else if whole_day(facts.ultra) && !excluded {
        TimesRoute::DoorToDoor
    } else {
        TimesRoute::Closure
    }
}

/// The route of a query from a stop: door to door only where there are
/// streets and the stop lies on them.
pub open spec fn stop_times_route(
    arrive_by: bool,
    excluded: bool,
    located: bool,
    facts: NetworkFacts,
) -> TimesRoute {
    match times_route(arrive_by, excluded, facts) {
        TimesRoute::DoorToDoor => if facts.has_streets && located {
            TimesRoute::DoorToDoor
        } else {
            TimesRoute::Closure
        },
        route => route,
    }
}

fn routed(arrive_by: bool, excluded: bool, facts: &NetworkFacts) -> (route: TimesRoute)
    ensures
        route == times_route(arrive_by, excluded, *facts),
{
    if arrive_by {
        TimesRoute::Reverse
    } else if ultra_active(facts.ultra) && !excluded {
        TimesRoute::DoorToDoor
    } else {
        TimesRoute::Closure
    }
}

/// What the street links of a place are refused for.
pub open spec fn place_fault(
    place: QueryPoint,
    walk: WalkOptions,
    max_snap: Seq<char>,
) -> Option<Fault> {
    first_of(value(walk_fault(walk)), value(coordinate_fault("origin "@, place, max_snap)))
}

fn place_links(place: &QueryPoint, walk: WalkOptions, max_snap: &str) -> (offsets: Result<
    Vec<(u32, u32)>,
    Refusal,
>)
    ensures
        match place_fault(*place, walk, max_snap@) {
            Some(fault) => offsets matches Err(refusal) && refused_for(refusal, fault),
            None => offsets matches Ok(offsets) && offsets@ == offsets_of(place.links->0@),
        },
{
    match validated_walking_speed(walk.speed_kmph, walk.max_time, walk.max_snap) {
        Ok(_) => {},
        Err(error) => return Err(Refusal::Value(error)),
    }
    match coordinate_links("origin ", place, max_snap) {
        Ok(links) => Ok(request_offsets(links.as_slice())),
        Err(error) => Err(Refusal::Value(error)),
    }
}

/// A moment from its parts.
pub open spec fn moment_of(departure: Seq<char>, date: Seq<char>) -> Moment {
    Moment {
        departure: clock_outcome(departure)->Ok_0,
        day: (days_outcome(date)->Ok_0).0,
        previous_day: (days_outcome(date)->Ok_0).1,
    }
}

/// A one-to-all time query from a stop as it is asked for; `place` is where
/// the stop lies on the walking network, and `max_snap` the snap distance as
/// it prints.
#[derive(Clone, Copy)]
pub struct StopTimesQuery<'a> {
    pub from_stop: &'a str,
    pub date: &'a str,
    pub departure: &'a str,
    pub excluded: bool,
    pub arrive_by: bool,
    pub place: Option<&'a QueryPoint>,
    pub walk: WalkOptions,
    pub max_snap: &'a str,
}

impl<'a> StopTimesQuery<'a> {
    pub open spec fn route(&self, facts: NetworkFacts) -> TimesRoute {
        stop_times_route(self.arrive_by, self.excluded, self.place is Some, facts)
    }
}

/// What the times from a stop are refused for: the walking options count
/// only on the way from door to door.
pub open spec fn stop_times_fault(query: StopTimesQuery, facts: NetworkFacts) -> Option<Fault> {
    first_of(
        key_of(stop_id(query.from_stop@, facts)),
        first_of(
            value_of(clock_outcome(query.departure@)),
            first_of(
                if query.route(facts) == TimesRoute::DoorToDoor {
                    place_fault(*query.place->0, query.walk, query.max_snap@)
                } else {
                    None
                },
                value_of(days_outcome(query.date@)),
            ),
        ),
    )
}

/// Resolves the times from a stop, or by a deadline the times to it.
pub fn stop_times_request(query: &StopTimesQuery, facts: &NetworkFacts) -> (request: Result<
    TimesRequest,
    Refusal,
>)
    requires
        facts.wf(),
    ensures
        match stop_times_fault(*query, *facts) {
            Some(fault) => request matches Err(refusal) && refused_for(refusal, fault),
            None => request matches Ok(request) && {
                &&& request.route == query.route(*facts)
                &&& request.moment == moment_of(query.departure@, query.date@)
                &&& request.offsets@ == if request.route == TimesRoute::DoorToDoor {
                    offsets_of(query.place->0.links->0@)
                } else {
                    seq![(stop_id(query.from_stop@, *facts)->Ok_0, 0u32)]
                }
            },
        },
{
    let stop: u32 = match facts.stops.resolve_stop(query.from_stop) {
        Ok(stop) => stop,
        Err(error) => return Err(Refusal::Key(error)),
    };
    let departure: u32 = match at_clock(query.departure) {
        Ok(seconds) => seconds,
        Err(refusal) => return Err(refusal),
    };
    let mut offsets: Vec<(u32, u32)> = Vec::new();
    let mut route: TimesRoute = routed(query.arrive_by, query.excluded, facts);
    if route == TimesRoute::DoorToDoor {
        match query.place {
            Some(place) if facts.has_streets => {
                match place_links(place, query.walk, query.max_snap) {
                    Ok(links) => {
                        offsets = links;
                    },
                    Err(refusal) => return Err(refusal),
                }
            },
            _ => {
                route = TimesRoute::Closure;
            },
        }
    }
    if route != TimesRoute::DoorToDoor {
        offsets.push((stop, 0));
    }
    let (day, previous_day): (i32, i32) = match on_days(query.date) {
        Ok(days) => days,
        Err(refusal) => return Err(refusal),
    };
    assert(query.route(*facts) == route);
    Ok(TimesRequest { offsets, moment: Moment { departure, day, previous_day }, route })
}

/// A one-to-all time query from a coordinate as it is asked for.
#[derive(Clone, Copy)]
pub struct CoordinateTimesQuery<'a> {
    pub place: &'a QueryPoint,
    pub date: &'a str,
    pub departure: &'a str,
    pub excluded: bool,
    pub arrive_by: bool,
    pub walk: WalkOptions,
    pub max_snap: &'a str,
}

/// What the times from a coordinate are refused for.
pub open spec fn coordinate_times_fault(query: CoordinateTimesQuery, facts: NetworkFacts) -> Option<
    Fault,
> {
    first_of(
        value(fault_if(!facts.has_streets, NO_STREETS@)),
        first_of(
            place_fault(*query.place, query.walk, query.max_snap@),
            first_of(
                value_of(clock_outcome(query.departure@)),
                value_of(days_outcome(query.date@)),
            ),
        ),
    )
}

/// Resolves the times from a coordinate, or by a deadline the times to it.
pub fn coordinate_times_request(query: &CoordinateTimesQuery, facts: &NetworkFacts) -> (request:
    Result<TimesRequest, Refusal>)
    ensures
        match coordinate_times_fault(*query, *facts) {
            Some(fault) => request matches Err(refusal) && refused_for(refusal, fault),
            None => request matches Ok(request) && {
                &&& request.route == times_route(query.arrive_by, query.excluded, *facts)
                &&& request.moment == moment_of(query.departure@, query.date@)
                &&& request.offsets@ == offsets_of(query.place.links->0@)
            },
        },
{
    match installed_streets(facts.has_streets) {
        Ok(_) => {},
        Err(error) => return Err(Refusal::Value(error)),
    }
    let offsets: Vec<(u32, u32)> = match place_links(query.place, query.walk, query.max_snap) {
        Ok(offsets) => offsets,
        Err(refusal) => return Err(refusal),
    };
    let departure: u32 = match at_clock(query.departure) {
        Ok(seconds) => seconds,
        Err(refusal) => return Err(refusal),
    };
    let (day, previous_day): (i32, i32) = match on_days(query.date) {
        Ok(days) => days,
        Err(refusal) => return Err(refusal),
    };
    let route: TimesRoute = routed(query.arrive_by, query.excluded, facts);
    Ok(TimesRequest { offsets, moment: Moment { departure, day, previous_day }, route })
}

/// A deadline never claims the shortcuts, exclusions keep the closure, and a
/// set that does not cover the whole day serves nobody; elsewhere a
/// coordinate goes door to door.
pub proof fn law_shortcuts_are_claimed_whole(arrive_by: bool, excluded: bool, facts: NetworkFacts)
    ensures
        times_route(arrive_by, excluded, facts) == TimesRoute::DoorToDoor <==> !arrive_by
            && !excluded && whole_day(facts.ultra),
        times_route(arrive_by, excluded, facts) == TimesRoute::Reverse <==> arrive_by,
        forall|located: bool| #[trigger]
            stop_times_route(arrive_by, excluded, located, facts) == TimesRoute::DoorToDoor
                ==> times_route(arrive_by, excluded, facts) == TimesRoute::DoorToDoor,
{
}

/// The policy's time to a destination: over its egress offsets the earliest
/// arrival, as seconds from the departure; none where nothing reaches it.
pub open spec fn policy_time(
    arrivals: Seq<Option<u32>>,
    egress: Seq<(u32, u32)>,
    departure: u32,
) -> Option<u32> {
    match earliest(arrivals, egress, egress.len() as int) {
        Some(at) => Some((at - departure) as u32),
        None => None,
    }
}

fn policy_cell(
    arrivals: &Vec<Option<u32>>,
    egress: &Vec<(u32, u32)>,
    departure: u32,
) -> (seconds: Option<u32>)
    requires
        departs_by(arrivals@, departure),
        offsets_in_range(egress@, arrivals@.len()),
    ensures
        seconds == policy_time(arrivals@, egress@, departure),
{
    let mut best: Option<u32> = None;
    let mut index: usize = 0;
    while index < egress.len()
        invariant
            index <= egress@.len(),
            offsets_in_range(egress@, arrivals@.len()),
            best == earliest(arrivals@, egress@, index as int),
        decreases egress.len() - index,
    {
        let (stop, seconds): (u32, u32) = egress[index];
        assert(egress@[index as int].0 < arrivals@.len());
        best = exec_earlier(best, exec_after_walk(arrivals[stop as usize], seconds));
        index += 1;
    }
    proof {
        lemma_earliest_departs(arrivals@, egress@, departure, egress@.len() as int);
    }
    match best {
        Some(at) => Some(at - departure),
        None => None,
    }
}

pub open spec fn offsets_in_range(offsets: Seq<(u32, u32)>, stops: nat) -> bool {
    forall|i: int| 0 <= i < offsets.len() ==> (#[trigger] offsets[i]).0 < stops
}

/// The shortest of the first `count` walks that end at a stop, in seconds.
pub open spec fn shortest_walk(offsets: Seq<(u32, u32)>, stop: int, count: int) -> Option<u32>
    decreases count,
{
    if count <= 0 {
        None
    } else {
        let before = shortest_walk(offsets, stop, count - 1);
        let (at, seconds) = offsets[count - 1];
        if at != stop {
            before
        } else {
            match before {
                Some(held) => if seconds < held {
                    Some(seconds)
                } else {
                    Some(held)
                },
                None => Some(seconds),
            }
        }
    }
}

/// A direct walk to a stop, as an offer beside the rides.
pub open spec fn walk_offer(seconds: Option<u32>) -> Option<(u32, u64)> {
    match seconds {
        Some(seconds) => Some((seconds, 0)),
        None => None,
    }
}

/// The shortest of the walks is one of them, and none is shorter.
pub proof fn law_shortest_walk(offsets: Seq<(u32, u32)>, stop: int, count: int)
    requires
        0 <= count <= offsets.len(),
    ensures
        match shortest_walk(offsets, stop, count) {
            Some(least) => {
                &&& exists|i: int| 0 <= i < count && #[trigger] offsets[i] == (stop as u32, least)
                    && stop == offsets[i].0
                &&& forall|i: int|
                    0 <= i < count && (#[trigger] offsets[i]).0 == stop ==> least <= offsets[i].1
            },
            None => forall|i: int| 0 <= i < count ==> (#[trigger] offsets[i]).0 != stop,
        },
    decreases count,
{
    if count > 0 {
        law_shortest_walk(offsets, stop, count - 1);
        let (at, seconds) = offsets[count - 1];
        if at == stop {
            assert(offsets[count - 1] == (stop as u32, seconds));
        }
    }
}

fn shortest_walks(offsets: &Vec<(u32, u32)>, stops: usize) -> (walks: Vec<Option<(u32, u64)>>)
    requires
        offsets_in_range(offsets@, stops as nat),
    ensures
        walks@.len() == stops,
        forall|stop: int|
            0 <= stop < stops ==> #[trigger] walks@[stop] == walk_offer(
                shortest_walk(offsets@, stop, offsets@.len() as int),
            ),
{
    let mut walks: Vec<Option<(u32, u64)>> = Vec::new();
    while walks.len() < stops
        invariant
            walks@.len() <= stops,
            forall|stop: int| 0 <= stop < walks@.len() ==> #[trigger] walks@[stop] is None,
        decreases stops - walks.len(),
    {
        walks.push(None);
    }
    let mut index: usize = 0;
    while index < offsets.len()
        invariant
            index <= offsets@.len(),
            offsets_in_range(offsets@, stops as nat),
            walks@.len() == stops,
            forall|stop: int|
                0 <= stop < stops ==> #[trigger] walks@[stop] == walk_offer(
                    shortest_walk(offsets@, stop, index as int),
                ),
        decreases offsets.len() - index,
    {
        let (stop, seconds): (u32, u32) = offsets[index];
        assert(offsets@[index as int].0 < stops);
        let nearer: bool = match walks[stop as usize] {
            Some((held, _)) => seconds < held,
            None => true,
        };
        if nearer {
            walks.set(stop as usize, Some((seconds, 0)));
        }
        index += 1;
    }
    walks
}

/// A stop's duration to a place by a deadline: the ride and the walk that the
/// reverse states of the stop hold, or the shortest direct walk where the
/// place is linked to the stop itself.
pub open spec fn reverse_cell(
    states: Seq<Vec<ReverseState>>,
    egress: Seq<(u32, u32)>,
    deadline: u32,
    stop: int,
) -> u32 {
    duration_of(
        best_arrival(
            point_arrivals(
                seq![(stop as u32, 0, 0)],
                states,
                walk_offer(shortest_walk(egress, stop, egress.len() as int)),
                deadline,
            ),
        ),
    )
}

/// The first `count` stops that reach a place by a deadline, with their
/// durations.
pub open spec fn reverse_upto(
    states: Seq<Vec<ReverseState>>,
    egress: Seq<(u32, u32)>,
    deadline: u32,
    count: int,
) -> Seq<(u32, u32)>
    decreases count,
{
    if count <= 0 {
        Seq::empty()
    } else {
        let before = reverse_upto(states, egress, deadline, count - 1);
        let seconds = reverse_cell(states, egress, deadline, count - 1);
        if seconds == UNREACHABLE {
            before
        } else {
            before.push(((count - 1) as u32, seconds))
        }
    }
}

/// Every stop's duration to a place by a deadline, from the reverse states
/// and the walks that end the journeys; a stop that cannot make it is absent.
pub fn reverse_times(
    states: &Vec<Vec<ReverseState>>,
    egress: &Vec<(u32, u32)>,
    deadline: u32,
) -> (reached: Vec<(u32, u32)>)
    requires
        states@.len() <= u32::MAX,
        offsets_in_range(egress@, states@.len()),
        forall|s: int| 0 <= s < states@.len() ==> states_forward((#[trigger] states@[s])@),
    ensures
        reached@ == reverse_upto(states@, egress@, deadline, states@.len() as int),
{
    let walks = shortest_walks(egress, states.len());
    let mut reached: Vec<(u32, u32)> = Vec::new();
    let mut stop: usize = 0;
    while stop < states.len()
        invariant
            stop <= states@.len() <= u32::MAX,
            walks@.len() == states@.len(),
            forall|s: int|
                0 <= s < states@.len() ==> #[trigger] walks@[s] == walk_offer(
                    shortest_walk(egress@, s, egress@.len() as int),
                ),
            forall|s: int| 0 <= s < states@.len() ==> states_forward((#[trigger] states@[s])@),
            reached@ == reverse_upto(states@, egress@, deadline, stop as int),
        decreases states.len() - stop,
    {
        let mut link: Vec<(u32, u32, u64)> = Vec::new();
        link.push((stop as u32, 0, 0));
        assert(link@ =~= seq![(stop as u32, 0, 0)]);
        let seconds: u32 = arrive_by_point_cell(&link, states, walks[stop], deadline);
        if seconds != UNREACHABLE {
            reached.push((stop as u32, seconds));
        }
        stop += 1;
    }
    reached
}

/// One origin's times to every destination of a policy matrix.
pub open spec fn policy_row(
    arrivals: Seq<Option<u32>>,
    egress: Seq<Vec<(u32, u32)>>,
    departure: u32,
) -> Seq<Option<u32>> {
    egress.map_values(|offsets: Vec<(u32, u32)>| policy_time(arrivals, offsets@, departure))
}

/// The time matrix of a street policy: every origin's arrivals folded over
/// every destination's reduced egress.
pub fn policy_time_matrix(
    rows: &Vec<Vec<Option<u32>>>,
    egress: &Vec<Vec<(u32, u32)>>,
    departure: u32,
) -> (matrix: Vec<Vec<Option<u32>>>)
    requires
        forall|r: int| 0 <= r < rows@.len() ==> departs_by((#[trigger] rows@[r])@, departure),
        forall|p: int, r: int|
            0 <= p < egress@.len() && 0 <= r < rows@.len() ==> offsets_in_range(
                (#[trigger] egress@[p])@,
                (#[trigger] rows@[r])@.len(),
            ),
    ensures
        matrix@.len() == rows@.len(),
        forall|r: int|
            0 <= r < rows@.len() ==> (#[trigger] matrix@[r])@ == policy_row(
                rows@[r]@,
                egress@,
                departure,
            ),
{
    let mut matrix: Vec<Vec<Option<u32>>> = Vec::new();
    let mut origin: usize = 0;
    while origin < rows.len()
        invariant
            origin <= rows@.len(),
            matrix@.len() == origin,
            forall|r: int| 0 <= r < rows@.len() ==> departs_by((#[trigger] rows@[r])@, departure),
            forall|p: int, r: int|
                0 <= p < egress@.len() && 0 <= r < rows@.len() ==> offsets_in_range(
                    (#[trigger] egress@[p])@,
                    (#[trigger] rows@[r])@.len(),
                ),
            forall|r: int|
                0 <= r < origin ==> (#[trigger] matrix@[r])@ == policy_row(
                    rows@[r]@,
                    egress@,
                    departure,
                ),
        decreases rows.len() - origin,
    {
        let arrivals = &rows[origin];
        let ghost line = policy_row(arrivals@, egress@, departure);
        let mut row: Vec<Option<u32>> = Vec::new();
        let mut point: usize = 0;
        assert(departs_by(rows@[origin as int]@, departure));
        while point < egress.len()
            invariant
                point <= egress@.len(),
                origin < rows@.len(),
                *arrivals == rows@[origin as int],
                departs_by(arrivals@, departure),
                line == policy_row(arrivals@, egress@, departure),
                forall|p: int, r: int|
                    0 <= p < egress@.len() && 0 <= r < rows@.len() ==> offsets_in_range(
                        (#[trigger] egress@[p])@,
                        (#[trigger] rows@[r])@.len(),
                    ),
                row@ == line.subrange(0, point as int),
            decreases egress.len() - point,
        {
            assert(offsets_in_range(egress@[point as int]@, rows@[origin as int]@.len()));
            row.push(policy_cell(arrivals, &egress[point], departure));
            point += 1;
            assert(row@ =~= line.subrange(0, point as int));
        }
        assert(line.subrange(0, line.len() as int) =~= line);
        matrix.push(row);
        origin += 1;
    }
    matrix
}

/// A stop goes door to door exactly where it departs, nothing is excluded, the
/// shortcuts cover the day, there are streets and the stop lies on them. A
/// deadline searches backwards, and everything else keeps the closure.
pub proof fn law_stop_routes(arrive_by: bool, excluded: bool, located: bool, facts: NetworkFacts)
    ensures
        ({
            let route = stop_times_route(arrive_by, excluded, located, facts);
            &&& route == TimesRoute::Reverse <==> arrive_by
            &&& route == TimesRoute::DoorToDoor <==> !arrive_by && !excluded && located
                && facts.has_streets && whole_day(facts.ultra)
        }),
{
}

/// A place is refused exactly where its walking options or its coordinate
/// are, the options first.
pub proof fn law_place_faults(place: QueryPoint, walk: WalkOptions, max_snap: Seq<char>)
    ensures
        place_fault(place, walk, max_snap) is None <==> walk_fault(walk) is None && f64_is_finite(
            place.lat,
        ) && f64_is_finite(place.lon) && place.links is Some,
        walk_fault(walk) matches Some(text) ==> place_fault(place, walk, max_snap) == Some(
            Fault::Value(text),
        ),
{
}

/// The time of a policy cell leads from the departure to the earliest arrival
/// over the destination's egress: one of its offsets attains it, none that
/// ends within the clock's range beats it, and there is none only where no
/// offset does.
pub proof fn law_policy_times_are_least(
    arrivals: Seq<Option<u32>>,
    egress: Seq<(u32, u32)>,
    departure: u32,
)
    requires
        departs_by(arrivals, departure),
        offsets_in_range(egress, arrivals.len()),
    ensures
        ({
            let time = policy_time(arrivals, egress, departure);
            &&& forall|i: int|
                0 <= i < egress.len() && arrivals[(#[trigger] egress[i]).0 as int] is Some
                    && arrivals[egress[i].0 as int]->0 + egress[i].1 < u32::MAX ==> time is Some
                    && departure + time->0 <= arrivals[egress[i].0 as int]->0 + egress[i].1
            &&& time matches Some(seconds) ==> exists|i: int|
                0 <= i < egress.len() && taken_over(
                    arrivals[(#[trigger] egress[i]).0 as int],
                    egress[i].1,
                    departure,
                    seconds,
                )
        }),
{
    law_earliest_adds_the_walk(arrivals, egress, egress.len() as int);
    lemma_earliest_departs(arrivals, egress, departure, egress.len() as int);
    if let Some(at) = earliest(arrivals, egress, egress.len() as int) {
        let i = choose|i: int|
            0 <= i < egress.len() && ends_at(
                arrivals[(#[trigger] egress[i]).0 as int],
                egress[i].1,
                at,
            );
        assert(taken_over(
            arrivals[egress[i].0 as int],
            egress[i].1,
            departure,
            (at - departure) as u32,
        ));
    }
}

/// A policy row has one cell for each destination, in order, over that
/// destination's own egress.
pub proof fn law_policy_rows_follow_the_destinations(
    arrivals: Seq<Option<u32>>,
    egress: Seq<Vec<(u32, u32)>>,
    departure: u32,
    at: int,
)
    requires
        0 <= at < egress.len(),
    ensures
        policy_row(arrivals, egress, departure).len() == egress.len(),
        policy_row(arrivals, egress, departure)[at] == policy_time(
            arrivals,
            egress[at]@,
            departure,
        ),
{
}

/// A walk that is offered to a stop takes the shortest one's seconds.
pub proof fn law_offered_walks(seconds: Option<u32>)
    ensures
        walk_offer(seconds) is Some <==> seconds is Some,
        walk_offer(seconds) matches Some(offer) ==> seconds == Some(offer.0),
{
}

/// A stop's time to a place by a deadline is the journey's that none leaves
/// later than: a state of the stop, or the walk to the place where it is
/// linked to it. It is the largest value only where there is neither.
pub proof fn law_reverse_cells_leave_last(
    states: Seq<Vec<ReverseState>>,
    egress: Seq<(u32, u32)>,
    deadline: u32,
    stop: int,
)
    requires
        0 <= stop < states.len() <= u32::MAX,
        states_forward(states[stop]@),
    ensures
        ({
            let cell = reverse_cell(states, egress, deadline, stop);
            let walk = shortest_walk(egress, stop, egress.len() as int);
            let best = best_arrival(
                point_arrivals(seq![(stop as u32, 0u32, 0u64)], states, walk_offer(walk), deadline),
            );
            &&& best matches Some(winner) ==> winner.departure + cell == winner.achieved
            &&& best is None ==> cell == u32::MAX
            &&& best is None <==> states[stop]@.len() == 0 && (walk matches Some(seconds) ==> seconds
                > deadline)
            &&& forall|i: int|
                0 <= i < states[stop]@.len() ==> no_better(
                    (#[trigger] states[stop]@[i]).departure as int,
                    states[stop]@[i].round as int,
                    states[stop]@[i].achieved as int,
                    (best->0.departure as int, best->0.rides as int, best->0.achieved as int),
                )
            &&& walk matches Some(seconds) ==> seconds <= deadline ==> no_better(
                deadline - seconds,
                0,
                deadline as int,
                (best->0.departure as int, best->0.rides as int, best->0.achieved as int),
            )
        }),
{
    let links = seq![(stop as u32, 0u32, 0u64)];
    let walk = walk_offer(shortest_walk(egress, stop, egress.len() as int));
    law_point_journeys_leave_last(links, states, walk, deadline);
    let best = best_arrival(point_arrivals(links, states, walk, deadline));
    assert(links[0] == (stop as u32, 0u32, 0u64));
    assert forall|i: int| 0 <= i < states[stop]@.len() implies best is Some && no_better(
        (#[trigger] states[stop]@[i]).departure as int,
        states[stop]@[i].round as int,
        states[stop]@[i].achieved as int,
        (best->0.departure as int, best->0.rides as int, best->0.achieved as int),
    ) by {
        assert(states[links[0].0 as int]@[i].departure >= links[0].1);
    }
    if states[stop]@.len() > 0 {
        assert(states[stop]@[0].departure <= states[stop]@[0].achieved);
    }
    if let Some(winner) = best {
        assert(made_from(states[stop]@, 0, winner) ==> winner.departure <= winner.achieved) by {
            if made_from(states[stop]@, 0, winner) {
                let i = choose|i: int|
                    0 <= i < states[stop]@.len() && (#[trigger] states[stop]@[i]).departure - 0
                        == winner.departure && states[stop]@[i].round == winner.rides
                        && states[stop]@[i].achieved == winner.achieved;
                assert(states[stop]@[i].departure <= states[stop]@[i].achieved);
            }
        }
        law_cell_durations(winner);
    }
}

/// The stops that reach a place by a deadline are listed once, in stop order,
/// with their own times; the others are not listed.
pub proof fn law_reverse_times_list_reaching_stops(
    states: Seq<Vec<ReverseState>>,
    egress: Seq<(u32, u32)>,
    deadline: u32,
    count: int,
)
    requires
        0 <= count <= states.len() <= u32::MAX,
    ensures
        ({
            let reached = reverse_upto(states, egress, deadline, count);
            &&& forall|s: int|
                0 <= s < count && #[trigger] reverse_cell(states, egress, deadline, s) != u32::MAX
                    ==> reached.contains((s as u32, reverse_cell(states, egress, deadline, s)))
            &&& forall|k: int|
                0 <= k < reached.len() ==> (#[trigger] reached[k]).0 < count && reached[k].1
                    != u32::MAX && reached[k].1 == reverse_cell(
                    states,
                    egress,
                    deadline,
                    reached[k].0 as int,
                )
            &&& forall|j: int, k: int|
                0 <= j < k < reached.len() ==> (#[trigger] reached[j]).0 < (#[trigger] reached[k]).0
        }),
    decreases count,
{
    if count > 0 {
        law_reverse_times_list_reaching_stops(states, egress, deadline, count - 1);
        let before = reverse_upto(states, egress, deadline, count - 1);
        let reached = reverse_upto(states, egress, deadline, count);
        assert forall|s: int|
            0 <= s < count && #[trigger] reverse_cell(states, egress, deadline, s)
                != u32::MAX implies reached.contains(
            (s as u32, reverse_cell(states, egress, deadline, s)),
        ) by {
            let entry = (s as u32, reverse_cell(states, egress, deadline, s));
            if s < count - 1 {
                assert(before.contains(entry));
                let at = choose|at: int| 0 <= at < before.len() && before[at] == entry;
                assert(reached[at] == entry);
            } else {
                assert(reached[reached.len() - 1] == entry);
            }
        }
    }
}

/// Times from a stop are refused for the earliest of: its id; its clock time;
/// on the way from door to door its place; its date. Times from a coordinate
/// for the earliest of: missing streets; its place; its clock time; its date.
pub proof fn law_times_refuse_in_order(
    stop: StopTimesQuery,
    place: CoordinateTimesQuery,
    facts: NetworkFacts,
)
    ensures
        is_earliest(
            stop_times_fault(stop, facts),
            seq![
                key_of(stop_id(stop.from_stop@, facts)),
                value_of(clock_outcome(stop.departure@)),
                door_fault(stop, facts),
                value_of(days_outcome(stop.date@)),
            ],
        ),
        is_earliest(
            coordinate_times_fault(place, facts),
            seq![
                value(fault_if(!facts.has_streets, NO_STREETS@)),
                place_fault(*place.place, place.walk, place.max_snap@),
                value_of(clock_outcome(place.departure@)),
                value_of(days_outcome(place.date@)),
            ],
        ),
{
    lemma_earliest_of_four(
        key_of(stop_id(stop.from_stop@, facts)),
        value_of(clock_outcome(stop.departure@)),
        door_fault(stop, facts),
        value_of(days_outcome(stop.date@)),
    );
    lemma_earliest_of_four(
        value(fault_if(!facts.has_streets, NO_STREETS@)),
        place_fault(*place.place, place.walk, place.max_snap@),
        value_of(clock_outcome(place.departure@)),
        value_of(days_outcome(place.date@)),
    );
}

/// What a stop's place is refused for, where its query goes door to door.
pub open spec fn door_fault(query: StopTimesQuery, facts: NetworkFacts) -> Option<Fault> {
    if stop_times_route(query.arrive_by, query.excluded, query.place is Some, facts)
        == TimesRoute::DoorToDoor {
        place_fault(*query.place->0, query.walk, query.max_snap@)
    } else {
        None
    }
}

/// A moment is put together from its clock time and its date's two days.
pub proof fn law_moments_are_put_together(departure: Seq<char>, date: Seq<char>)
    requires
        clock_outcome(departure) is Ok,
        days_outcome(date) is Ok,
    ensures
        moment_outcome(date, departure) == Ok::<Moment, Seq<char>>(moment_of(departure, date)),
{
}

} // verus!
