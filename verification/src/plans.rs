//! Whole requests: everything a query resolves and is refused for before an
//! engine runs, in the order it is refused, and how it is routed then.

use crate::bytes::{f64_is_finite, less};
use crate::checks::{
    candidates_fault, check_candidates, check_cost_request, check_mc_route, cost_fault, fault_if,
    installed_streets, mc_route_fault, needs_raptor, router_fault, Installed, RouteOptions,
    NO_STREETS,
};
use crate::costs::{
    choose_located, law_objectives_are_named, located_rows, merge_direct_walk_cells,
    objective_outcome, parse_objective, walks_merged, CostRow, Objective,
};
use crate::dates::{
    date_format, previous_day_outcome, previous_service_day, read_day, service_day,
    service_day_outcome,
};
use crate::dispatch::{
    date_of, door_to_door, emissions_choice, emissions_transfers, least_cost_route,
    matrix_route, mc_by_coordinates, mc_engine, named_router, parse_router,
    resolve_least_cost_route, resolve_matrix_route, resolve_mc_router, resolve_time_router,
    time_choice, time_engine, time_transfers, ultra_usable, whole_day, Candidates, Engine,
    MatrixRoute, Router, TransferChoice, Window,
};
use crate::fares::{fare_outcome, fare_tables, FareSpec, FareTables};
use crate::ids::{
    factor_vector, law_identifiers_resolve_in_order, refused_for, resolved_stop, resolved_stops,
    Fault, Refusal, StopIndex, TripIndex,
};
use crate::links::{coordinate_fault, coordinate_links, offsets_of, request_offsets, QueryPoint};
use crate::options::{
    bad_point_text, clock_seconds, first_bad_point, invalid_time_text, law_the_first_bad_point,
    parse_time, validate_points, validated_walking_speed, walking_fault,
};
use crate::rows::row_views;
use crate::text::ValueError;
use vstd::prelude::*;

verus! {

/// What requests are resolved against: the id tables, the counts, what is
/// installed, and what has been computed ahead.
pub struct NetworkFacts<'a> {
    pub stops: &'a StopIndex,
    pub trips: &'a TripIndex,
    pub stop_count: u32,
    pub trip_count: usize,
    pub route_count: usize,
    pub installed: Installed,
    pub has_streets: bool,
    pub ultra: Option<Window>,
    pub mcultra: Option<Window>,
    pub time_date: Option<&'a str>,
    pub mc_date: Option<&'a str>,
}

impl<'a> NetworkFacts<'a> {
    pub open spec fn wf(&self) -> bool {
        &&& self.stops.wf()
        &&& self.trips.wf()
        &&& self.trips.trips().len() == self.trip_count <= u32::MAX
    }

    pub open spec fn stop_ids(&self, ids: Seq<String>) -> Result<Seq<u32>, Seq<char>> {
        resolved_stops(self.stops.stops(), self.stops.feed_count(), ids, ids.len() as int)
    }

    pub open spec fn factors(&self, factors: Seq<(String, u64)>) -> Seq<u64> {
        factor_vector(
            self.trips.trips(),
            self.trips.feed_count(),
            factors,
            factors.len() as int,
        )
    }
}

/// The first of two faults.
pub open spec fn first_of(first: Option<Fault>, second: Option<Fault>) -> Option<Fault> {
    match first {
        Some(fault) => Some(fault),
        None => second,
    }
}

pub open spec fn value(text: Option<Seq<char>>) -> Option<Fault> {
    match text {
        Some(text) => Some(Fault::Value(text)),
        None => None,
    }
}

/// The fault of a value that does not come about.
pub open spec fn value_of<T>(outcome: Result<T, Seq<char>>) -> Option<Fault> {
    match outcome {
        Ok(_) => None,
        Err(text) => Some(Fault::Value(text)),
    }
}

/// The fault of an id that does not resolve.
pub open spec fn key_of<T>(outcome: Result<T, Seq<char>>) -> Option<Fault> {
    match outcome {
        Ok(_) => None,
        Err(text) => Some(Fault::Key(text)),
    }
}

/// When a query departs: seconds past the service day's start, the service
/// day and the day before it.
#[derive(Debug, Clone, Copy, PartialEq, Eq, Structural)]
pub struct Moment {
    pub departure: u32,
    pub day: i32,
    pub previous_day: i32,
}

/// The moment of a date and a clock time; the time is read first.
pub open spec fn moment_outcome(date: Seq<char>, departure: Seq<char>) -> Result<Moment, Seq<char>> {
    match clock_seconds(departure) {
        None => Err(invalid_time_text(departure)),
        Some(seconds) => match service_day_outcome(date, read_day(date, date_format())) {
            Err(text) => Err(text),
            Ok(day) => match previous_day_outcome(date, read_day(date, date_format())) {
                Err(text) => Err(text),
                Ok(previous_day) => Ok(Moment { departure: seconds, day, previous_day }),
            },
        },
    }
}

/// The moment of a query.
pub fn moment(date: &str, departure: &str) -> (at: Result<Moment, ValueError>)
    ensures
        match moment_outcome(date@, departure@) {
            Ok(expected) => at == Ok::<Moment, ValueError>(expected),
            Err(text) => at matches Err(error) && error.message@ == text,
        },
{
    let departure: u32 = match parse_time(departure) {
        Ok(seconds) => seconds,
        Err(error) => return Err(error),
    };
    let day: i32 = match service_day(date) {
        Ok(day) => day,
        Err(error) => return Err(error),
    };
    let previous_day: i32 = match previous_service_day(date) {
        Ok(day) => day,
        Err(error) => return Err(error),
    };
    Ok(Moment { departure, day, previous_day })
}

/// What a least-cost matrix asks beyond a fastest one; the bucket is a
/// double's bits.
pub struct LeastCost<'a> {
    pub window: u32,
    pub objective: &'a str,
    pub candidates: &'a str,
    pub bucket: u64,
}

pub open spec fn window_of(least: Option<LeastCost>) -> Option<u32> {
    match least {
        Some(least) => Some(least.window),
        None => None,
    }
}

pub open spec fn fares_fault(fares: Option<FareSpec>, facts: NetworkFacts) -> Option<Fault> {
    match fares {
        Some(spec) => value_of(
            fare_outcome(spec, facts.route_count as nat, facts.stop_count as nat),
        ),
        None => None,
    }
}

/// The fare tables a request prices by.
pub open spec fn priced_by(fares: Option<FareSpec>, facts: NetworkFacts) -> Option<FareTables> {
    match fares {
        Some(spec) => Some(
            fare_outcome(spec, facts.route_count as nat, facts.stop_count as nat)->Ok_0,
        ),
        None => None,
    }
}

fn priced(fares: Option<FareSpec>, facts: &NetworkFacts) -> (tables: Result<
    Option<FareTables>,
    Refusal,
>)
    ensures
        match fares_fault(fares, *facts) {
            Some(fault) => tables matches Err(refusal) && refused_for(refusal, fault),
            None => tables == Ok::<Option<FareTables>, Refusal>(priced_by(fares, *facts)),
        },
{
    match fares {
        None => Ok(None),
        Some(spec) => match fare_tables(spec, facts.route_count, facts.stop_count as usize) {
            Ok(tables) => Ok(Some(tables)),
            Err(error) => Err(Refusal::Value(error)),
        },
    }
}

/// A cost matrix between stops as it is asked for. Without destinations it
/// runs to every stop.
pub struct StopMatrixQuery<'a> {
    pub from_stops: &'a Vec<String>,
    pub to_stops: Option<&'a Vec<String>>,
    pub date: &'a str,
    pub departure: &'a str,
    pub factors: &'a Vec<(String, u64)>,
    pub router: &'a str,
    pub geometries: bool,
}

/// A cost matrix between stops, resolved.
pub struct StopMatrixRequest {
    pub router: Router,
    pub tables: Option<FareTables>,
    pub least: Option<(Candidates, Objective)>,
    pub origins: Vec<u32>,
    pub destinations: Vec<u32>,
    pub per_trip: Vec<u64>,
    pub moment: Moment,
}

pub open spec fn destinations_of(query: StopMatrixQuery, facts: NetworkFacts) -> Result<
    Seq<u32>,
    Seq<char>,
> {
    match query.to_stops {
        Some(stops) => facts.stop_ids(stops@),
        None => Ok(Seq::new(facts.stop_count as nat, |i: int| i as u32)),
    }
}

pub open spec fn candidate_fault(least: Option<LeastCost>) -> Option<Fault> {
    match least {
        Some(least) => value(candidates_fault(least.candidates@, least.objective@, least.bucket)),
        None => None,
    }
}

pub open spec fn objective_fault(least: Option<LeastCost>, fares: bool) -> Option<Fault> {
    match least {
        Some(least) => value_of(objective_outcome(least.objective@, fares)),
        None => None,
    }
}

/// What a cost matrix between stops is refused for.
pub open spec fn stop_matrix_fault(
    query: StopMatrixQuery,
    least: Option<LeastCost>,
    fares: Option<FareSpec>,
    facts: NetworkFacts,
) -> Option<Fault> {
    first_of(
        value(cost_fault(query.router@, facts.installed, query.geometries, window_of(least))),
        first_of(
            fares_fault(fares, facts),
            first_of(
                candidate_fault(least),
                first_of(
                    objective_fault(least, fares is Some),
                    first_of(
                        key_of(facts.stop_ids(query.from_stops@)),
                        first_of(
                            key_of(destinations_of(query, facts)),
                            value_of(moment_outcome(query.date@, query.departure@)),
                        ),
                    ),
                ),
            ),
        ),
    )
}

pub open spec fn least_of(least: Option<LeastCost>, fares: bool) -> Option<(Candidates, Objective)> {
    match least {
        Some(least) => Some(
            (
                if least.candidates@ == "pareto"@ {
                    Candidates::Pareto
                } else {
                    Candidates::Time
                },
                objective_outcome(least.objective@, fares)->Ok_0,
            ),
        ),
        None => None,
    }
}

/// Whether a request is what a query resolves to.
pub open spec fn resolves_stop_matrix(
    request: StopMatrixRequest,
    query: StopMatrixQuery,
    least: Option<LeastCost>,
    fares: Option<FareSpec>,
    facts: NetworkFacts,
) -> bool {
    &&& named_router(query.router@) == Some(request.router)
    &&& request.tables == priced_by(fares, facts)
    &&& request.least == least_of(least, fares is Some)
    &&& Ok::<Seq<u32>, Seq<char>>(request.origins@) == facts.stop_ids(query.from_stops@)
    &&& Ok::<Seq<u32>, Seq<char>>(request.destinations@) == destinations_of(query, facts)
    &&& request.per_trip@ == facts.factors(query.factors@)
    &&& Ok::<Moment, Seq<char>>(request.moment) == moment_outcome(query.date@, query.departure@)
}

fn every_stop(stop_count: u32) -> (stops: Vec<u32>)
    ensures
        stops@ == Seq::new(stop_count as nat, |i: int| i as u32),
{
    let mut stops: Vec<u32> = Vec::new();
    let mut stop: u32 = 0;
    while stop < stop_count
        invariant
            stop <= stop_count,
            stops@ == Seq::new(stop as nat, |i: int| i as u32),
        decreases stop_count - stop,
    {
        stops.push(stop);
        stop += 1;
        assert(stops@ =~= Seq::new(stop as nat, |i: int| i as u32));
    }
    stops
}

/// Resolves a cost matrix between stops: the fastest journeys' without
/// `least`, the objective-best ones' with it.
pub fn stop_matrix_request(
    query: &StopMatrixQuery,
    least: Option<LeastCost>,
    fares: Option<FareSpec>,
    facts: &NetworkFacts,
) -> (request: Result<StopMatrixRequest, Refusal>)
    requires
        facts.wf(),
    ensures
        match stop_matrix_fault(*query, least, fares, *facts) {
            Some(fault) => request matches Err(refusal) && refused_for(refusal, fault),
            None => request matches Ok(request) && resolves_stop_matrix(
                request,
                *query,
                least,
                fares,
                *facts,
            ),
        },
{
    let window: Option<u32> = match &least {
        Some(least) => Some(least.window),
        None => None,
    };
    let router: Router = match check_cost_request(
        query.router,
        facts.installed,
        query.geometries,
        window,
    ) {
        Ok(router) => router,
        Err(error) => return Err(Refusal::Value(error)),
    };
    let is_priced: bool = fares.is_some();
    let tables: Option<FareTables> = match priced(fares, facts) {
        Ok(tables) => tables,
        Err(refusal) => return Err(refusal),
    };
    let folded: Option<(Candidates, Objective)> = match &least {
        Some(least) => {
            let candidates: Candidates = match check_candidates(
                least.candidates,
                least.objective,
                least.bucket,
            ) {
                Ok(candidates) => candidates,
                Err(error) => return Err(Refusal::Value(error)),
            };
            match parse_objective(least.objective, is_priced) {
                Ok(objective) => Some((candidates, objective)),
                Err(error) => return Err(Refusal::Value(error)),
            }
        },
        None => None,
    };
    let origins: Vec<u32> = match facts.stops.resolve_stops(query.from_stops) {
        Ok(stops) => stops,
        Err(error) => return Err(Refusal::Key(error)),
    };
    let destinations: Vec<u32> = match query.to_stops {
        Some(stops) => match facts.stops.resolve_stops(stops) {
            Ok(stops) => stops,
            Err(error) => return Err(Refusal::Key(error)),
        },
        None => every_stop(facts.stop_count),
    };
    let per_trip: Vec<u64> = facts.trips.per_trip_factors(query.factors, facts.trip_count);
    let moment: Moment = match moment(query.date, query.departure) {
        Ok(moment) => moment,
        Err(error) => return Err(Refusal::Value(error)),
    };
    Ok(StopMatrixRequest { router, tables, least: folded, origins, destinations, per_trip, moment })
}

/// The street options of a query, doubles' bits.
#[derive(Debug, Clone, Copy, PartialEq, Eq, Structural)]
pub struct WalkOptions {
    pub speed_kmph: u64,
    pub max_time: u64,
    pub max_snap: u64,
}

pub open spec fn walk_fault(walk: WalkOptions) -> Option<Seq<char>> {
    walking_fault(walk.speed_kmph, walk.max_time, walk.max_snap)
}

/// How a fastest-cost matrix is routed. The street options count only where
/// some origin goes door to door; `snapped` holds, per origin, whether its
/// stop lies on the street network, nothing without one.
pub fn travel_cost_route(
    request: &StopMatrixRequest,
    date: &str,
    snapped: &Vec<bool>,
    walk: WalkOptions,
    facts: &NetworkFacts,
) -> (route: Result<MatrixRoute, ValueError>)
    ensures
        ({
            let usable = door_to_door(request.router, false, facts.ultra, snapped@);
            if usable && walk_fault(walk) is Some {
                route matches Err(error) && error.message@ == walk_fault(walk)->0
            } else {
                route matches Ok(route) && Ok::<MatrixRoute, Seq<char>>(route) == matrix_route(
                    request.router,
                    usable,
                    date_of(facts.time_date),
                    date@,
                    false,
                )
            }
        }),
{
    let usable: bool = ultra_usable(request.router, false, facts.ultra, snapped);
    if usable {
        match validated_walking_speed(walk.speed_kmph, walk.max_time, walk.max_snap) {
            Ok(_) => {},
            Err(error) => return Err(error),
        }
    }
    resolve_matrix_route(request.router, usable, facts.time_date, date, false)
}

/// How a least-cost matrix is routed and what it relaxes between rides. The
/// two flags say whether the emissions shortcut set and the cached
/// multicriteria set were built for the request's factors.
pub fn least_cost_matrix_route(
    request: &StopMatrixRequest,
    date: &str,
    same_shortcut_factors: bool,
    same_cached_factors: bool,
    walk: WalkOptions,
    facts: &NetworkFacts,
) -> (route: Result<(MatrixRoute, TransferChoice), ValueError>)
    requires
        request.least is Some,
    ensures
        ({
            let expected = least_cost_route(
                (request.least->0).0,
                request.router,
                emissions_choice(facts.mcultra, same_shortcut_factors),
                facts.has_streets,
                date_of(facts.mc_date),
                same_cached_factors,
                date_of(facts.time_date),
                date@,
            );
            if expected == MatrixRoute::DoorToDoor && walk_fault(walk) is Some {
                route matches Err(error) && error.message@ == walk_fault(walk)->0
            } else {
                route == Ok::<(MatrixRoute, TransferChoice), ValueError>(
                    (
                        expected,
                        if expected == MatrixRoute::DoorToDoor {
                            TransferChoice::McUltra
                        } else {
                            TransferChoice::Closure
                        },
                    ),
                )
            }
        }),
{
    let candidates: Candidates = match request.least {
        Some((candidates, _)) => candidates,
        None => Candidates::Time,
    };
    let emissions: TransferChoice = emissions_transfers(facts.mcultra, same_shortcut_factors);
    let route: MatrixRoute = resolve_least_cost_route(
        candidates,
        request.router,
        emissions,
        facts.has_streets,
        facts.mc_date,
        same_cached_factors,
        facts.time_date,
        date,
    );
    if route == MatrixRoute::DoorToDoor {
        match validated_walking_speed(walk.speed_kmph, walk.max_time, walk.max_snap) {
            Ok(_) => {},
            Err(error) => return Err(error),
        }
        return Ok((route, TransferChoice::McUltra));
    }
    Ok((route, TransferChoice::Closure))
}

/// The row of an origin in a door-to-door least-cost matrix: its own cells
/// with its direct walks laid over them, or the closure's where it takes no
/// street walk.
pub open spec fn finished_row(
    door: Seq<CostRow>,
    closure: Seq<CostRow>,
    located: bool,
    walks: Seq<(u32, u32, u64)>,
    destinations: Seq<u32>,
    budget: Option<u32>,
    priced: bool,
) -> Seq<CostRow> {
    if located {
        walks_merged(door, walks, destinations, budget, priced, walks.len() as int)
    } else {
        closure
    }
}

/// Finishes a door-to-door least-cost matrix, origin by origin in input
/// order.
pub fn least_cost_rows(
    door: Vec<Vec<CostRow>>,
    closure: Vec<Vec<CostRow>>,
    located: &Vec<bool>,
    walks: &Vec<Vec<(u32, u32, u64)>>,
    destinations: &Vec<u32>,
    budget: Option<u32>,
    priced: bool,
) -> (rows: Vec<Vec<CostRow>>)
    requires
        door@.len() == closure@.len() == located@.len() == walks@.len(),
        forall|o: int, w: int|
            0 <= o < walks@.len() && 0 <= w < walks@[o]@.len() ==> (#[trigger] walks@[o]@[w]).0
                < destinations@.len(),
    ensures
        rows@.len() == door@.len(),
        forall|o: int|
            0 <= o < rows@.len() ==> (#[trigger] rows@[o])@ == finished_row(
                door@[o]@,
                closure@[o]@,
                located@[o],
                walks@[o]@,
                destinations@,
                budget,
                priced,
            ),
{
    let ghost doors = door@;
    let ghost closures = closure@;
    let mut rows: Vec<Vec<CostRow>> = choose_located(door, closure, located);
    let ghost chosen = rows@;
    proof {
        let views = located_rows(row_views(doors), row_views(closures), located@);
        assert(row_views(chosen) == views);
        assert(row_views(chosen).len() == chosen.len() && views.len() == doors.len());
        assert forall|o: int| 0 <= o < chosen.len() implies (#[trigger] chosen[o])@ == (
        if located@[o] {
            doors[o]@
        } else {
            closures[o]@
        }) by {
            assert(row_views(chosen)[o] == views[o]);
        }
    }
    let mut origin: usize = 0;
    while origin < rows.len()
        invariant
            origin <= rows@.len(),
            rows@.len() == chosen.len() == doors.len() == closures.len(),
            rows@.len() == located@.len() == walks@.len(),
            forall|o: int, w: int|
                0 <= o < walks@.len() && 0 <= w < walks@[o]@.len() ==> (#[trigger] walks@[o]@[w]).0
                    < destinations@.len(),
            forall|o: int|
                0 <= o < chosen.len() ==> (#[trigger] chosen[o])@ == (if located@[o] {
                    doors[o]@
                } else {
                    closures[o]@
                }),
            forall|o: int| origin <= o < rows@.len() ==> #[trigger] rows@[o] == chosen[o],
            forall|o: int|
                0 <= o < origin ==> (#[trigger] rows@[o])@ == finished_row(
                    doors[o]@,
                    closures[o]@,
                    located@[o],
                    walks@[o]@,
                    destinations@,
                    budget,
                    priced,
                ),
        decreases rows.len() - origin,
    {
        assert(rows@[origin as int] == chosen[origin as int]);
        if located[origin] {
            assert forall|w: int| 0 <= w < walks@[origin as int]@.len() implies (
            #[trigger] walks@[origin as int]@[w]).0 < destinations@.len() by {}
            merge_direct_walk_cells(&mut rows[origin], &walks[origin], destinations, budget, priced);
        }
        origin += 1;
    }
    rows
}

/// A cost matrix between coordinates as it is asked for.
pub struct PointMatrixQuery<'a> {
    pub origins: &'a Vec<(u64, u64)>,
    pub destinations: &'a Vec<(u64, u64)>,
    pub date: &'a str,
    pub departure: &'a str,
    pub factors: &'a Vec<(String, u64)>,
    pub router: &'a str,
    pub walk: WalkOptions,
    pub geometries: bool,
}

/// A cost matrix between coordinates, resolved.
pub struct PointMatrixRequest {
    pub engine: Engine,
    pub transfers: TransferChoice,
    pub tables: Option<FareTables>,
    pub objective: Option<Objective>,
    pub per_trip: Vec<u64>,
    pub moment: Moment,
}

pub open spec fn points_fault(points: Seq<(u64, u64)>) -> Option<Fault> {
    match first_bad_point(points, 0) {
        Some(index) => Some(Fault::Value(bad_point_text(index as nat))),
        None => None,
    }
}

/// What a cost matrix between coordinates is refused for.
pub open spec fn point_matrix_fault(
    query: PointMatrixQuery,
    least: Option<LeastCost>,
    fares: Option<FareSpec>,
    facts: NetworkFacts,
) -> Option<Fault> {
    first_of(
        value(router_fault(query.router@)),
        first_of(
            value(fault_if(!facts.has_streets, NO_STREETS@)),
            first_of(
                value(cost_fault(query.router@, facts.installed, query.geometries, window_of(least))),
                first_of(
                    fares_fault(fares, facts),
                    first_of(
                        objective_fault(least, fares is Some),
                        first_of(
                            value(walk_fault(query.walk)),
                            first_of(
                                points_fault(query.origins@),
                                first_of(
                                    points_fault(query.destinations@),
                                    value_of(moment_outcome(query.date@, query.departure@)),
                                ),
                            ),
                        ),
                    ),
                ),
            ),
        ),
    )
}

/// Whether a request is what a query resolves to. A fastest matrix relaxes
/// the time shortcuts; a least-cost one keeps the closure, for no shortcut
/// set is complete for its candidates.
pub open spec fn resolves_point_matrix(
    request: PointMatrixRequest,
    query: PointMatrixQuery,
    least: Option<LeastCost>,
    fares: Option<FareSpec>,
    facts: NetworkFacts,
) -> bool {
    &&& Ok::<Engine, Seq<char>>(request.engine) == time_engine(
        named_router(query.router@)->0,
        date_of(facts.time_date),
        query.date@,
        false,
    )
    &&& request.transfers == match least {
        Some(_) => TransferChoice::Closure,
        None => time_choice(facts.ultra),
    }
    &&& request.tables == priced_by(fares, facts)
    &&& request.objective == match least {
        Some(least) => Some(objective_outcome(least.objective@, fares is Some)->Ok_0),
        None => None,
    }
    &&& request.per_trip@ == facts.factors(query.factors@)
    &&& Ok::<Moment, Seq<char>>(request.moment) == moment_outcome(query.date@, query.departure@)
}

/// Resolves a cost matrix between coordinates: the fastest journeys' without
/// `least`, the objective-best ones' with it.
pub fn point_matrix_request(
    query: &PointMatrixQuery,
    least: Option<LeastCost>,
    fares: Option<FareSpec>,
    facts: &NetworkFacts,
) -> (request: Result<PointMatrixRequest, Refusal>)
    requires
        facts.wf(),
    ensures
        match point_matrix_fault(*query, least, fares, *facts) {
            Some(fault) => request matches Err(refusal) && refused_for(refusal, fault),
            None => request matches Ok(request) && resolves_point_matrix(
                request,
                *query,
                least,
                fares,
                *facts,
            ),
        },
{
    let router: Router = match parse_router(query.router) {
        Ok(router) => router,
        Err(error) => return Err(Refusal::Value(error)),
    };
    let engine: Engine = match resolve_time_router(router, facts.time_date, query.date, false) {
        Ok(engine) => engine,
        Err(error) => return Err(Refusal::Value(error)),
    };
    match installed_streets(facts.has_streets) {
        Ok(_) => {},
        Err(error) => return Err(Refusal::Value(error)),
    }
    let window: Option<u32> = match &least {
        Some(least) => Some(least.window),
        None => None,
    };
    match check_cost_request(query.router, facts.installed, query.geometries, window) {
        Ok(_) => {},
        Err(error) => return Err(Refusal::Value(error)),
    }
    let is_priced: bool = fares.is_some();
    let tables: Option<FareTables> = match priced(fares, facts) {
        Ok(tables) => tables,
        Err(refusal) => return Err(refusal),
    };
    let objective: Option<Objective> = match &least {
        Some(least) => match parse_objective(least.objective, is_priced) {
            Ok(objective) => Some(objective),
            Err(error) => return Err(Refusal::Value(error)),
        },
        None => None,
    };
    match validated_walking_speed(query.walk.speed_kmph, query.walk.max_time, query.walk.max_snap) {
        Ok(_) => {},
        Err(error) => return Err(Refusal::Value(error)),
    }
    match validate_points(query.origins.as_slice()) {
        Ok(_) => {},
        Err(error) => return Err(Refusal::Value(error)),
    }
    match validate_points(query.destinations.as_slice()) {
        Ok(_) => {},
        Err(error) => return Err(Refusal::Value(error)),
    }
    let per_trip: Vec<u64> = facts.trips.per_trip_factors(query.factors, facts.trip_count);
    let moment: Moment = match moment(query.date, query.departure) {
        Ok(moment) => moment,
        Err(error) => return Err(Refusal::Value(error)),
    };
    let transfers: TransferChoice = match &least {
        Some(_) => TransferChoice::Closure,
        None => time_transfers(facts.ultra),
    };
    Ok(PointMatrixRequest { engine, transfers, tables, objective, per_trip, moment })
}

/// A multicriteria route between two stops, resolved.
pub struct McStopRequest {
    pub router: Router,
    pub origin: u32,
    pub destination: u32,
    pub per_trip: Vec<u64>,
}

pub open spec fn stop_id(id: Seq<char>, facts: NetworkFacts) -> Result<u32, Seq<char>> {
    resolved_stop(facts.stops.stops(), facts.stops.feed_count(), id)
}

/// What a multicriteria route between two stops is refused for.
pub open spec fn mc_stop_fault(
    options: RouteOptions,
    router: Seq<char>,
    from_stop: Seq<char>,
    to_stop: Seq<char>,
    facts: NetworkFacts,
) -> Option<Fault> {
    first_of(
        value(mc_route_fault(options, router, false, facts.installed.distances)),
        first_of(key_of(stop_id(from_stop, facts)), key_of(stop_id(to_stop, facts))),
    )
}

/// Resolves a multicriteria route between two stops.
pub fn mc_stop_request(
    options: RouteOptions,
    router: &str,
    from_stop: &str,
    to_stop: &str,
    factors: &Vec<(String, u64)>,
    facts: &NetworkFacts,
) -> (request: Result<McStopRequest, Refusal>)
    requires
        facts.wf(),
    ensures
        match mc_stop_fault(options, router@, from_stop@, to_stop@, *facts) {
            Some(fault) => request matches Err(refusal) && refused_for(refusal, fault),
            None => request matches Ok(request) && {
                &&& named_router(router@) == Some(request.router)
                &&& Ok::<u32, Seq<char>>(request.origin) == stop_id(from_stop@, *facts)
                &&& Ok::<u32, Seq<char>>(request.destination) == stop_id(to_stop@, *facts)
                &&& request.per_trip@ == facts.factors(factors@)
            },
        },
{
    let router: Router = match check_mc_route(options, router, false, facts.installed.distances) {
        Ok(router) => router,
        Err(error) => return Err(Refusal::Value(error)),
    };
    let origin: u32 = match facts.stops.resolve_stop(from_stop) {
        Ok(stop) => stop,
        Err(error) => return Err(Refusal::Key(error)),
    };
    let destination: u32 = match facts.stops.resolve_stop(to_stop) {
        Ok(stop) => stop,
        Err(error) => return Err(Refusal::Key(error)),
    };
    let per_trip: Vec<u64> = facts.trips.per_trip_factors(factors, facts.trip_count);
    Ok(McStopRequest { router, origin, destination, per_trip })
}

/// How a multicriteria route between two stops goes on.
#[derive(Debug, Clone, Copy, PartialEq, Eq, Structural)]
pub enum McStopRoute {
    /// As a query between the stops' coordinates.
    Coordinates,
    /// Boarding at the origin over the closure.
    Boarding { engine: Engine, moment: Moment },
}

/// Routes a multicriteria query between two stops. `snapped` says whether
/// both stops lie on the street network; the two flags are as for a
/// least-cost matrix.
pub fn mc_stop_route(
    request: &McStopRequest,
    options: RouteOptions,
    date: &str,
    departure: &str,
    snapped: bool,
    same_shortcut_factors: bool,
    same_cached_factors: bool,
    facts: &NetworkFacts,
) -> (route: Result<McStopRoute, ValueError>)
    ensures
        if request.router != Router::Tbtr && emissions_choice(
            facts.mcultra,
            same_shortcut_factors,
        ) == TransferChoice::McUltra && snapped {
            route == Ok::<McStopRoute, ValueError>(McStopRoute::Coordinates)
        } else {
            match moment_outcome(date@, departure@) {
                Err(text) => route matches Err(error) && error.message@ == text,
                Ok(moment) => route == Ok::<McStopRoute, ValueError>(
                    (McStopRoute::Boarding {
                        engine: mc_engine(
                            request.router,
                            date_of(facts.mc_date),
                            same_cached_factors,
                            date@,
                            needs_raptor(options),
                        ),
                        moment,
                    }),
                ),
            }
        },
{
    let emissions: TransferChoice = emissions_transfers(facts.mcultra, same_shortcut_factors);
    if mc_by_coordinates(request.router, emissions, snapped) {
        return Ok(McStopRoute::Coordinates);
    }
    let strict: bool = !less(0, options.slack) && !options.diverse;
    let engine: Engine = resolve_mc_router(
        request.router,
        facts.mc_date,
        same_cached_factors,
        date,
        !strict,
    );
    match moment(date, departure) {
        Ok(moment) => Ok(McStopRoute::Boarding { engine, moment }),
        Err(error) => Err(error),
    }
}

/// A query between two coordinates, resolved: the stops walkable from its
/// ends, in seconds, and its moment.
pub struct CoordinateRequest {
    pub access: Vec<(u32, u32)>,
    pub egress: Vec<(u32, u32)>,
    pub moment: Moment,
}

/// What the ends and the moment of a query between two coordinates are
/// refused for; `max_snap` is the snap distance as it prints.
pub open spec fn ends_fault(
    origin: QueryPoint,
    destination: QueryPoint,
    date: Seq<char>,
    departure: Seq<char>,
    walk: WalkOptions,
    max_snap: Seq<char>,
    has_streets: bool,
) -> Option<Fault> {
    first_of(
        value(fault_if(!has_streets, NO_STREETS@)),
        first_of(
            value(walk_fault(walk)),
            first_of(
                value(coordinate_fault("origin "@, origin, max_snap)),
                first_of(
                    value(coordinate_fault("destination "@, destination, max_snap)),
                    value_of(moment_outcome(date, departure)),
                ),
            ),
        ),
    )
}

/// Resolves a query between two coordinates.
pub fn coordinate_request(
    origin: &QueryPoint,
    destination: &QueryPoint,
    date: &str,
    departure: &str,
    walk: WalkOptions,
    max_snap: &str,
    has_streets: bool,
) -> (request: Result<CoordinateRequest, ValueError>)
    ensures
        match ends_fault(*origin, *destination, date@, departure@, walk, max_snap@, has_streets) {
            Some(fault) => request matches Err(error) && Fault::Value(error.message@) == fault,
            None => request matches Ok(request) && {
                &&& request.access@ == offsets_of(origin.links->0@)
                &&& request.egress@ == offsets_of(destination.links->0@)
                &&& Ok::<Moment, Seq<char>>(request.moment) == moment_outcome(date@, departure@)
            },
        },
{
    match installed_streets(has_streets) {
        Ok(_) => {},
        Err(error) => return Err(error),
    }
    match validated_walking_speed(walk.speed_kmph, walk.max_time, walk.max_snap) {
        Ok(_) => {},
        Err(error) => return Err(error),
    }
    let access: Vec<(u32, u32)> = match coordinate_links("origin ", origin, max_snap) {
        Ok(links) => request_offsets(links.as_slice()),
        Err(error) => return Err(error),
    };
    let egress: Vec<(u32, u32)> = match coordinate_links("destination ", destination, max_snap) {
        Ok(links) => request_offsets(links.as_slice()),
        Err(error) => return Err(error),
    };
    match moment(date, departure) {
        Ok(moment) => Ok(CoordinateRequest { access, egress, moment }),
        Err(error) => Err(error),
    }
}

/// A multicriteria query between two coordinates, resolved.
pub struct McCoordinateRequest {
    pub router: Router,
    pub ends: CoordinateRequest,
    pub per_trip: Vec<u64>,
}

/// Resolves a multicriteria query between two coordinates: its options are
/// refused before its ends.
pub fn mc_coordinate_request(
    options: RouteOptions,
    router: &str,
    origin: &QueryPoint,
    destination: &QueryPoint,
    date: &str,
    departure: &str,
    factors: &Vec<(String, u64)>,
    walk: WalkOptions,
    max_snap: &str,
    facts: &NetworkFacts,
) -> (request: Result<McCoordinateRequest, ValueError>)
    requires
        facts.wf(),
    ensures
        match first_of(
            value(mc_route_fault(options, router@, true, facts.installed.distances)),
            ends_fault(
                *origin,
                *destination,
                date@,
                departure@,
                walk,
                max_snap@,
                facts.has_streets,
            ),
        ) {
            Some(fault) => request matches Err(error) && Fault::Value(error.message@) == fault,
            None => request matches Ok(request) && {
                &&& named_router(router@) == Some(request.router)
                &&& request.ends.access@ == offsets_of(origin.links->0@)
                &&& request.ends.egress@ == offsets_of(destination.links->0@)
                &&& Ok::<Moment, Seq<char>>(request.ends.moment) == moment_outcome(
                    date@,
                    departure@,
                )
                &&& request.per_trip@ == facts.factors(factors@)
            },
        },
{
    let router: Router = match check_mc_route(options, router, true, facts.installed.distances) {
        Ok(router) => router,
        Err(error) => return Err(error),
    };
    let ends: CoordinateRequest = match coordinate_request(
        origin,
        destination,
        date,
        departure,
        walk,
        max_snap,
        facts.has_streets,
    ) {
        Ok(ends) => ends,
        Err(error) => return Err(error),
    };
    let per_trip: Vec<u64> = facts.trips.per_trip_factors(factors, facts.trip_count);
    Ok(McCoordinateRequest { router, ends, per_trip })
}

/// How a multicriteria query between coordinates is routed: both engines
/// share the emissions shortcut set, so the engine resolves on the cache
/// alone.
pub fn mc_coordinate_route(
    request: &McCoordinateRequest,
    options: RouteOptions,
    date: &str,
    same_shortcut_factors: bool,
    same_cached_factors: bool,
    facts: &NetworkFacts,
) -> (route: (Engine, TransferChoice))
    ensures
        route == (
            mc_engine(
                request.router,
                date_of(facts.mc_date),
                same_cached_factors,
                date@,
                needs_raptor(options),
            ),
            emissions_choice(facts.mcultra, same_shortcut_factors),
        ),
{
    let strict: bool = !less(0, options.slack) && !options.diverse;
    let engine: Engine = resolve_mc_router(
        request.router,
        facts.mc_date,
        same_cached_factors,
        date,
        !strict,
    );
    (engine, emissions_transfers(facts.mcultra, same_shortcut_factors))
}

/// A request that is not refused names its router and has what its costs are
/// measured by.
pub proof fn law_accepted_matrices_are_measured(
    query: StopMatrixQuery,
    least: Option<LeastCost>,
    fares: Option<FareSpec>,
    facts: NetworkFacts,
)
    requires
        stop_matrix_fault(query, least, fares, facts) is None,
    ensures
        named_router(query.router@) is Some,
        facts.installed.distances,
        query.geometries ==> facts.installed.leg_geometries,
        least matches Some(least) ==> least.window > 0,
        least matches Some(least) ==> (objective_outcome(least.objective@, fares is Some) == Ok::<
            Objective,
            Seq<char>,
        >(Objective::Fare) ==> fares is Some && least.candidates@ != "pareto"@),
{
    if least is Some {
        reveal_strlit("emissions");
        reveal_strlit("fare");
    }
}

/// Between stops and between coordinates, what refuses a fastest-cost matrix
/// for its router or its installation is the same.
pub proof fn law_point_matrices_refuse_alike(
    stops: StopMatrixQuery,
    points: PointMatrixQuery,
    facts: NetworkFacts,
)
    requires
        stops.router@ == points.router@,
        stops.geometries == points.geometries,
        facts.has_streets,
        cost_fault(stops.router@, facts.installed, stops.geometries, None) is Some,
    ensures
        stop_matrix_fault(stops, None, None, facts) == point_matrix_fault(points, None, None, facts),
{
}

/// Whether a fault is the earliest of some that may or may not arise, and
/// there is none only where none arises.
#[verifier::opaque]
pub open spec fn is_earliest(fault: Option<Fault>, faults: Seq<Option<Fault>>) -> bool {
    match fault {
        None => forall|i: int| 0 <= i < faults.len() ==> #[trigger] faults[i] is None,
        Some(named) => exists|i: int|
            0 <= i < faults.len() && #[trigger] faults[i] == Some(named) && forall|j: int|
                0 <= j < i ==> #[trigger] faults[j] is None,
    }
}

/// A fault before others is the earliest, and where there is none the
/// earliest of the others is.
pub proof fn lemma_earliest(first: Option<Fault>, rest: Option<Fault>, faults: Seq<Option<Fault>>)
    requires
        is_earliest(rest, faults),
    ensures
        is_earliest(first_of(first, rest), seq![first] + faults),
{
    reveal(is_earliest);
    let all = seq![first] + faults;
    assert(all[0] == first);
    assert forall|i: int| 1 <= i < all.len() implies #[trigger] all[i] == faults[i - 1] by {
    }
    if first is None {
        if let Some(named) = rest {
            let i = choose|i: int|
                0 <= i < faults.len() && #[trigger] faults[i] == Some(named) && forall|j: int|
                    0 <= j < i ==> #[trigger] faults[j] is None;
            assert(all[i + 1] == Some(named));
            assert forall|j: int| 0 <= j < i + 1 implies #[trigger] all[j] is None by {
                if j > 0 {
                    assert(faults[j - 1] is None);
                }
            }
        }
    }
}

/// The only fault there may be is the earliest.
pub proof fn lemma_lone_fault(fault: Option<Fault>)
    ensures
        is_earliest(fault, seq![fault]),
{
    reveal(is_earliest);
    assert(seq![fault][0] == fault);
}

/// The earliest of two faults.
pub proof fn lemma_earliest_of_two(
    a: Option<Fault>,
    b: Option<Fault>,
)
    ensures
        is_earliest(
            first_of(a, b),
            seq![a, b],
        ),
{
    lemma_lone_fault(b);
    let rest = seq![b];
    lemma_earliest(a, b, rest);
    assert(seq![a] + rest =~= seq![a, b]);
}

/// The earliest of three faults.
pub proof fn lemma_earliest_of_three(
    a: Option<Fault>,
    b: Option<Fault>,
    c: Option<Fault>,
)
    ensures
        is_earliest(
            first_of(a, first_of(b, c)),
            seq![a, b, c],
        ),
{
    lemma_earliest_of_two(b, c);
    let rest = seq![b, c];
    lemma_earliest(a, first_of(b, c), rest);
    assert(seq![a] + rest =~= seq![a, b, c]);
}

/// The earliest of four faults.
pub proof fn lemma_earliest_of_four(
    a: Option<Fault>,
    b: Option<Fault>,
    c: Option<Fault>,
    d: Option<Fault>,
)
    ensures
        is_earliest(
            first_of(a, first_of(b, first_of(c, d))),
            seq![a, b, c, d],
        ),
{
    lemma_earliest_of_three(b, c, d);
    let rest = seq![b, c, d];
    lemma_earliest(a, first_of(b, first_of(c, d)), rest);
    assert(seq![a] + rest =~= seq![a, b, c, d]);
}

/// The earliest of five faults.
pub proof fn lemma_earliest_of_five(
    a: Option<Fault>,
    b: Option<Fault>,
    c: Option<Fault>,
    d: Option<Fault>,
    e: Option<Fault>,
)
    ensures
        is_earliest(
            first_of(a, first_of(b, first_of(c, first_of(d, e)))),
            seq![a, b, c, d, e],
        ),
{
    lemma_earliest_of_four(b, c, d, e);
    let rest = seq![b, c, d, e];
    lemma_earliest(a, first_of(b, first_of(c, first_of(d, e))), rest);
    assert(seq![a] + rest =~= seq![a, b, c, d, e]);
}

/// The earliest of six faults.
pub proof fn lemma_earliest_of_six(
    a: Option<Fault>,
    b: Option<Fault>,
    c: Option<Fault>,
    d: Option<Fault>,
    e: Option<Fault>,
    f: Option<Fault>,
)
    ensures
        is_earliest(
            first_of(a, first_of(b, first_of(c, first_of(d, first_of(e, f))))),
            seq![a, b, c, d, e, f],
        ),
{
    lemma_earliest_of_five(b, c, d, e, f);
    let rest = seq![b, c, d, e, f];
    lemma_earliest(a, first_of(b, first_of(c, first_of(d, first_of(e, f)))), rest);
    assert(seq![a] + rest =~= seq![a, b, c, d, e, f]);
}

/// The earliest of seven faults.
pub proof fn lemma_earliest_of_seven(
    a: Option<Fault>,
    b: Option<Fault>,
    c: Option<Fault>,
    d: Option<Fault>,
    e: Option<Fault>,
    f: Option<Fault>,
    g: Option<Fault>,
)
    ensures
        is_earliest(
            first_of(a, first_of(b, first_of(c, first_of(d, first_of(e, first_of(f, g)))))),
            seq![a, b, c, d, e, f, g],
        ),
{
    lemma_earliest_of_six(b, c, d, e, f, g);
    let rest = seq![b, c, d, e, f, g];
    lemma_earliest(a, first_of(b, first_of(c, first_of(d, first_of(e, first_of(f, g))))), rest);
    assert(seq![a] + rest =~= seq![a, b, c, d, e, f, g]);
}

/// The earliest of eight faults.
pub proof fn lemma_earliest_of_eight(
    a: Option<Fault>,
    b: Option<Fault>,
    c: Option<Fault>,
    d: Option<Fault>,
    e: Option<Fault>,
    f: Option<Fault>,
    g: Option<Fault>,
    h: Option<Fault>,
)
    ensures
        is_earliest(
            first_of(a, first_of(b, first_of(c, first_of(d, first_of(e, first_of(f, first_of(g, h))))))),
            seq![a, b, c, d, e, f, g, h],
        ),
{
    lemma_earliest_of_seven(b, c, d, e, f, g, h);
    let rest = seq![b, c, d, e, f, g, h];
    lemma_earliest(a, first_of(b, first_of(c, first_of(d, first_of(e, first_of(f, first_of(g, h)))))), rest);
    assert(seq![a] + rest =~= seq![a, b, c, d, e, f, g, h]);
}

/// The earliest of nine faults.
pub proof fn lemma_earliest_of_nine(
    a: Option<Fault>,
    b: Option<Fault>,
    c: Option<Fault>,
    d: Option<Fault>,
    e: Option<Fault>,
    f: Option<Fault>,
    g: Option<Fault>,
    h: Option<Fault>,
    i: Option<Fault>,
)
    ensures
        is_earliest(
            first_of(a, first_of(b, first_of(c, first_of(d, first_of(e, first_of(f, first_of(g, first_of(h, i)))))))),
            seq![a, b, c, d, e, f, g, h, i],
        ),
{
    lemma_earliest_of_eight(b, c, d, e, f, g, h, i);
    let rest = seq![b, c, d, e, f, g, h, i];
    lemma_earliest(a, first_of(b, first_of(c, first_of(d, first_of(e, first_of(f, first_of(g, first_of(h, i))))))), rest);
    assert(seq![a] + rest =~= seq![a, b, c, d, e, f, g, h, i]);
}

/// A moment is its clock time on its day, the day before it beside it; it
/// needs all three, and a bad clock time is refused before a bad date.
pub proof fn law_moments_are_read(date: Seq<char>, departure: Seq<char>)
    requires
        read_day(date, date_format()) matches Ok(day) ==> i32::MIN < day,
    ensures
        moment_outcome(date, departure) is Ok <==> clock_seconds(departure) is Some
            && service_day_outcome(date, read_day(date, date_format())) is Ok
            && previous_day_outcome(date, read_day(date, date_format())) is Ok,
        moment_outcome(date, departure) matches Ok(at) ==> {
            &&& clock_seconds(departure) == Some(at.departure)
            &&& read_day(date, date_format()) == Ok::<i32, Seq<char>>(at.day)
            &&& at.previous_day + 1 == at.day
        },
        clock_seconds(departure) is None ==> moment_outcome(date, departure) == Err::<
            Moment,
            Seq<char>,
        >(invalid_time_text(departure)),
{
}

/// Without named destinations a matrix goes to every stop, in index order.
pub proof fn law_matrices_go_everywhere(query: StopMatrixQuery, facts: NetworkFacts, stop: int)
    requires
        query.to_stops is None,
        0 <= stop < facts.stop_count,
    ensures
        destinations_of(query, facts) matches Ok(stops) && stops.len() == facts.stop_count
            && stops[stop] == stop,
{
}

/// A cost matrix between stops is refused for the earliest of: its router,
/// installation or window; its fares; its candidates; its objective; its
/// origins; its destinations; its moment.
pub proof fn law_stop_matrices_refuse_in_order(
    query: StopMatrixQuery,
    least: Option<LeastCost>,
    fares: Option<FareSpec>,
    facts: NetworkFacts,
)
    ensures
        is_earliest(
            stop_matrix_fault(query, least, fares, facts),
            seq![
                value(
                    cost_fault(query.router@, facts.installed, query.geometries, window_of(least)),
                ),
                fares_fault(fares, facts),
                candidate_fault(least),
                objective_fault(least, fares is Some),
                key_of(facts.stop_ids(query.from_stops@)),
                key_of(destinations_of(query, facts)),
                value_of(moment_outcome(query.date@, query.departure@)),
            ],
        ),
{
    lemma_earliest_of_seven(
        value(cost_fault(query.router@, facts.installed, query.geometries, window_of(least))),
        fares_fault(fares, facts),
        candidate_fault(least),
        objective_fault(least, fares is Some),
        key_of(facts.stop_ids(query.from_stops@)),
        key_of(destinations_of(query, facts)),
        value_of(moment_outcome(query.date@, query.departure@)),
    );
}

/// What a request names is what its query asks for: its origins and
/// destinations stand where their ids do, its candidates are pareto exactly
/// where they are asked to be, and its moment is the query's.
pub proof fn law_stop_matrices_resolve_their_query(
    request: StopMatrixRequest,
    query: StopMatrixQuery,
    least: Option<LeastCost>,
    fares: Option<FareSpec>,
    facts: NetworkFacts,
    i: int,
)
    requires
        resolves_stop_matrix(request, query, least, fares, facts),
        stop_matrix_fault(query, least, fares, facts) is None,
    ensures
        request.origins@.len() == query.from_stops@.len(),
        0 <= i < query.from_stops@.len() ==> resolved_stop(
            facts.stops.stops(),
            facts.stops.feed_count(),
            query.from_stops@[i]@,
        ) == Ok::<u32, Seq<char>>(request.origins@[i]),
        query.to_stops matches Some(stops) ==> request.destinations@.len() == stops@.len() && (0
            <= i < stops@.len() ==> resolved_stop(
            facts.stops.stops(),
            facts.stops.feed_count(),
            stops@[i]@,
        ) == Ok::<u32, Seq<char>>(request.destinations@[i])),
        query.to_stops is None ==> request.destinations@.len() == facts.stop_count && (0 <= i
            < facts.stop_count ==> request.destinations@[i] == i),
        request.tables is Some <==> fares is Some,
        request.least is Some <==> least is Some,
        least matches Some(asked) ==> ((request.least->0).0 == Candidates::Pareto
            <==> asked.candidates@ == "pareto"@) && ((request.least->0).1 == Objective::Emissions
            <==> asked.objective@ == "emissions"@),
        clock_seconds(query.departure@) == Some(request.moment.departure),
{
    law_identifiers_resolve_in_order(
        facts.stops.stops(),
        facts.stops.feed_count(),
        query.from_stops@,
        query.from_stops@.len() as int,
    );
    if let Some(stops) = query.to_stops {
        law_identifiers_resolve_in_order(
            facts.stops.stops(),
            facts.stops.feed_count(),
            stops@,
            stops@.len() as int,
        );
    }
    if let Some(asked) = least {
        law_objectives_are_named(asked.objective@, fares is Some);
    }
}

/// A located origin's row holds its door-to-door cells under its walks; any
/// other keeps the closure's.
pub proof fn law_unlocated_rows_keep_the_closure(
    door: Seq<CostRow>,
    closure: Seq<CostRow>,
    walks: Seq<(u32, u32, u64)>,
    destinations: Seq<u32>,
    budget: Option<u32>,
    priced: bool,
)
    ensures
        finished_row(door, closure, false, walks, destinations, budget, priced) == closure,
        walks.len() == 0 ==> finished_row(
            door,
            closure,
            true,
            walks,
            destinations,
            budget,
            priced,
        ) == door,
        (forall|w: int|
            0 <= w < walks.len() ==> (#[trigger] walks[w]).1 > budget->0) && budget is Some
            ==> finished_row(door, closure, true, walks, destinations, budget, priced) == door,
{
    if (forall|w: int| 0 <= w < walks.len() ==> (#[trigger] walks[w]).1 > budget->0)
        && budget is Some {
        lemma_walks_past_the_budget(
            door,
            walks,
            destinations,
            budget,
            priced,
            walks.len() as int,
        );
    }
}

proof fn lemma_walks_past_the_budget(
    row: Seq<CostRow>,
    walks: Seq<(u32, u32, u64)>,
    destinations: Seq<u32>,
    budget: Option<u32>,
    priced: bool,
    count: int,
)
    requires
        0 <= count <= walks.len(),
        budget is Some,
        forall|w: int| 0 <= w < walks.len() ==> (#[trigger] walks[w]).1 > budget->0,
    ensures
        walks_merged(row, walks, destinations, budget, priced, count) == row,
    decreases count,
{
    if count > 0 {
        assert(walks[count - 1].1 > budget->0);
        lemma_walks_past_the_budget(row, walks, destinations, budget, priced, count - 1);
    }
}

/// A cost matrix between coordinates is refused for the earliest of: its
/// router; missing streets; its installation or window; its fares; its
/// objective; its walking options; its origins; its destinations; its moment.
pub proof fn law_point_matrices_refuse_in_order(
    query: PointMatrixQuery,
    least: Option<LeastCost>,
    fares: Option<FareSpec>,
    facts: NetworkFacts,
)
    ensures
        is_earliest(
            point_matrix_fault(query, least, fares, facts),
            seq![
                value(router_fault(query.router@)),
                value(fault_if(!facts.has_streets, NO_STREETS@)),
                value(
                    cost_fault(query.router@, facts.installed, query.geometries, window_of(least)),
                ),
                fares_fault(fares, facts),
                objective_fault(least, fares is Some),
                value(walk_fault(query.walk)),
                points_fault(query.origins@),
                points_fault(query.destinations@),
                value_of(moment_outcome(query.date@, query.departure@)),
            ],
        ),
{
    lemma_earliest_of_nine(
        value(router_fault(query.router@)),
        value(fault_if(!facts.has_streets, NO_STREETS@)),
        value(cost_fault(query.router@, facts.installed, query.geometries, window_of(least))),
        fares_fault(fares, facts),
        objective_fault(least, fares is Some),
        value(walk_fault(query.walk)),
        points_fault(query.origins@),
        points_fault(query.destinations@),
        value_of(moment_outcome(query.date@, query.departure@)),
    );
}

/// A least-cost matrix between coordinates keeps the closure, whatever is
/// computed; a fastest one takes the time shortcuts where they cover the day.
pub proof fn law_point_matrices_choose_their_transfers(
    request: PointMatrixRequest,
    query: PointMatrixQuery,
    least: Option<LeastCost>,
    fares: Option<FareSpec>,
    facts: NetworkFacts,
)
    requires
        resolves_point_matrix(request, query, least, fares, facts),
    ensures
        least is Some ==> request.transfers == TransferChoice::Closure,
        least is None ==> (request.transfers == TransferChoice::Ultra <==> whole_day(facts.ultra)),
        request.objective is Some <==> least is Some,
        request.tables is Some <==> fares is Some,
        clock_seconds(query.departure@) == Some(request.moment.departure),
{
}

/// A point list is refused exactly where a side of some point is not finite.
pub proof fn law_points_are_finite(points: Seq<(u64, u64)>)
    ensures
        points_fault(points) is None ==> forall|i: int|
            0 <= i < points.len() ==> f64_is_finite((#[trigger] points[i]).0) && f64_is_finite(
                points[i].1,
            ),
        points_fault(points) is Some ==> exists|i: int|
            0 <= i < points.len() && !(f64_is_finite((#[trigger] points[i]).0) && f64_is_finite(
                points[i].1,
            )),
{
    law_the_first_bad_point(points, 0);
}

/// A multicriteria route between stops is refused for the earliest of: its
/// options; its origin; its destination.
pub proof fn law_multicriteria_stops_refuse_in_order(
    options: RouteOptions,
    router: Seq<char>,
    from_stop: Seq<char>,
    to_stop: Seq<char>,
    facts: NetworkFacts,
)
    ensures
        is_earliest(
            mc_stop_fault(options, router, from_stop, to_stop, facts),
            seq![
                value(mc_route_fault(options, router, false, facts.installed.distances)),
                key_of(
                    resolved_stop(facts.stops.stops(), facts.stops.feed_count(), from_stop),
                ),
                key_of(resolved_stop(facts.stops.stops(), facts.stops.feed_count(), to_stop)),
            ],
        ),
{
    lemma_earliest_of_three(
        value(mc_route_fault(options, router, false, facts.installed.distances)),
        key_of(resolved_stop(facts.stops.stops(), facts.stops.feed_count(), from_stop)),
        key_of(resolved_stop(facts.stops.stops(), facts.stops.feed_count(), to_stop)),
    );
}

/// The ends of a coordinate query are refused for the earliest of: missing
/// streets; the walking options; the origin; the destination; the moment.
pub proof fn law_coordinate_ends_refuse_in_order(
    origin: QueryPoint,
    destination: QueryPoint,
    date: Seq<char>,
    departure: Seq<char>,
    walk: WalkOptions,
    max_snap: Seq<char>,
    has_streets: bool,
)
    ensures
        is_earliest(
            ends_fault(origin, destination, date, departure, walk, max_snap, has_streets),
            seq![
                value(fault_if(!has_streets, NO_STREETS@)),
                value(walk_fault(walk)),
                value(coordinate_fault("origin "@, origin, max_snap)),
                value(coordinate_fault("destination "@, destination, max_snap)),
                value_of(moment_outcome(date, departure)),
            ],
        ),
{
    lemma_earliest_of_five(
        value(fault_if(!has_streets, NO_STREETS@)),
        value(walk_fault(walk)),
        value(coordinate_fault("origin "@, origin, max_snap)),
        value(coordinate_fault("destination "@, destination, max_snap)),
        value_of(moment_outcome(date, departure)),
    );
}

/// What does not come about is refused in its own words: an id as a key, and
/// anything else as a value. What comes about is not refused.
pub proof fn law_faults_keep_their_words(text: Option<Seq<char>>, outcome: Result<u32, Seq<char>>)
    ensures
        value(text) is None <==> text is None,
        text matches Some(words) ==> value(text) == Some(Fault::Value(words)),
        value_of(outcome) is None <==> outcome is Ok,
        key_of(outcome) is None <==> outcome is Ok,
        outcome matches Err(words) ==> value_of(outcome) == Some(Fault::Value(words)) && key_of(
            outcome,
        ) == Some(Fault::Key(words)),
{
}

} // verus!
