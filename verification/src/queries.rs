//! The requests of the time, arrive-by, fare-frontier, emission-frontier,
//! policy and carriage queries: what each resolves, and what it is refused
//! for, in the order it is refused.

use crate::carriage::{carries, carrying_mask};
use crate::checks::{
    bound_to, check_frontier_request, check_policy_exclusions, fault_if, frontier_fault,
    installed_streets, law_unknown_trips_follow_the_rule, lent, parse_unknown_rule, policy_outcome,
    policy_transfers, router_fault, unknown_rule, Binding, BoundSet, Installed, EXCLUDED_INTERIORS,
    NO_DISTANCES, NO_STREETS,
};
use crate::dates::{
    date_format, previous_day_outcome, previous_service_day, read_day, service_day,
    service_day_outcome,
};
use crate::dispatch::{
    date_of, door_to_door, exclusion_transfers, matrix_route, named_router, parse_router,
    resolve_matrix_route, resolve_time_router, time_choice, time_engine, ultra_usable, Engine,
    MatrixRoute, Router, TransferChoice,
};
use crate::fares::{
    check_clock, check_positive_window, cutoffs_ascend, fare_outcome, fare_tables, rule_structure,
    step_fault, validated_cutoffs, validated_step, zone_structure, FareSpec, FareTables,
    CUTOFFS_TEXT,
};
use crate::ids::{refused_for, Fault, Refusal};
use crate::listings::{law_offsets_keep_their_seconds, resolve_offsets, resolved_offsets};
use crate::options::{
    clock_seconds, invalid_time_text, parse_time, shortcut_fault, validate_points,
    validate_shortcut_options, validate_window, validated_walking_speed, window_fault,
};
use crate::plans::{
    first_of, is_earliest, key_of, lemma_earliest_of_five, lemma_earliest_of_four,
    lemma_earliest_of_nine, lemma_earliest_of_six, lemma_earliest_of_three, lemma_earliest_of_two,
    moment, moment_outcome, points_fault, stop_id, value, value_of, walk_fault, Moment,
    NetworkFacts, WalkOptions,
};
use crate::text::ValueError;
use vstd::prelude::*;

verus! {

fn named_stops(ids: &Vec<String>, facts: &NetworkFacts) -> (stops: Result<Vec<u32>, Refusal>)
    requires
        facts.wf(),
    ensures
        match key_of(facts.stop_ids(ids@)) {
            Some(fault) => stops matches Err(refusal) && refused_for(refusal, fault),
            None => stops matches Ok(stops) && Ok::<Seq<u32>, Seq<char>>(stops@) == facts.stop_ids(
                ids@,
            ),
        },
{
    match facts.stops.resolve_stops(ids) {
        Ok(stops) => Ok(stops),
        Err(error) => Err(Refusal::Key(error)),
    }
}

fn at_moment(date: &str, time: &str) -> (at: Result<Moment, Refusal>)
    ensures
        match value_of(moment_outcome(date@, time@)) {
            Some(fault) => at matches Err(refusal) && refused_for(refusal, fault),
            None => at matches Ok(at) && Ok::<Moment, Seq<char>>(at) == moment_outcome(date@, time@),
        },
{
    match moment(date, time) {
        Ok(at) => Ok(at),
        Err(error) => Err(Refusal::Value(error)),
    }
}

/// The seconds of a clock time.
pub open spec fn clock_outcome(time: Seq<char>) -> Result<u32, Seq<char>> {
    match clock_seconds(time) {
        Some(seconds) => Ok(seconds),
        None => Err(invalid_time_text(time)),
    }
}

pub(crate) fn at_clock(time: &str) -> (seconds: Result<u32, Refusal>)
    ensures
        match value_of(clock_outcome(time@)) {
            Some(fault) => seconds matches Err(refusal) && refused_for(refusal, fault),
            None => seconds matches Ok(seconds) && Ok::<u32, Seq<char>>(seconds) == clock_outcome(
                time@,
            ),
        },
{
    match parse_time(time) {
        Ok(seconds) => Ok(seconds),
        Err(error) => Err(Refusal::Value(error)),
    }
}

/// A service day and the day before it.
pub open spec fn days_outcome(date: Seq<char>) -> Result<(i32, i32), Seq<char>> {
    match service_day_outcome(date, read_day(date, date_format())) {
        Err(text) => Err(text),
        Ok(day) => match previous_day_outcome(date, read_day(date, date_format())) {
            Err(text) => Err(text),
            Ok(previous_day) => Ok((day, previous_day)),
        },
    }
}

pub(crate) fn on_days(date: &str) -> (days: Result<(i32, i32), Refusal>)
    ensures
        match value_of(days_outcome(date@)) {
            Some(fault) => days matches Err(refusal) && refused_for(refusal, fault),
            None => days matches Ok(days) && Ok::<(i32, i32), Seq<char>>(days) == days_outcome(
                date@,
            ),
        },
{
    let day: i32 = match service_day(date) {
        Ok(day) => day,
        Err(error) => return Err(Refusal::Value(error)),
    };
    match previous_service_day(date) {
        Ok(previous_day) => Ok((day, previous_day)),
        Err(error) => Err(Refusal::Value(error)),
    }
}

/// What the ends of a coordinate matrix are refused for.
pub open spec fn point_ends_fault(
    origins: Seq<(u64, u64)>,
    destinations: Seq<(u64, u64)>,
    walk: WalkOptions,
) -> Option<Fault> {
    first_of(
        value(walk_fault(walk)),
        first_of(points_fault(origins), points_fault(destinations)),
    )
}

fn check_point_ends(
    origins: &Vec<(u64, u64)>,
    destinations: &Vec<(u64, u64)>,
    walk: WalkOptions,
) -> (checked: Result<(), Refusal>)
    ensures
        match point_ends_fault(origins@, destinations@, walk) {
            Some(fault) => checked matches Err(refusal) && refused_for(refusal, fault),
            None => checked is Ok,
        },
{
    match validated_walking_speed(walk.speed_kmph, walk.max_time, walk.max_snap) {
        Ok(_) => {},
        Err(error) => return Err(Refusal::Value(error)),
    }
    match validate_points(origins.as_slice()) {
        Ok(_) => {},
        Err(error) => return Err(Refusal::Value(error)),
    }
    match validate_points(destinations.as_slice()) {
        Ok(_) => Ok(()),
        Err(error) => Err(Refusal::Value(error)),
    }
}

/// A time matrix from stops, resolved.
pub struct TimeMatrixRequest {
    pub router: Router,
    pub origins: Vec<u32>,
    pub moment: Moment,
}

/// What a time matrix from stops is refused for.
pub open spec fn time_matrix_fault(
    router: Seq<char>,
    from_stops: Seq<String>,
    date: Seq<char>,
    departure: Seq<char>,
    facts: NetworkFacts,
) -> Option<Fault> {
    first_of(
        value(router_fault(router)),
        first_of(
            key_of(facts.stop_ids(from_stops)),
            value_of(moment_outcome(date, departure)),
        ),
    )
}

/// Resolves a time matrix from stops.
pub fn time_matrix_request(
    router: &str,
    from_stops: &Vec<String>,
    date: &str,
    departure: &str,
    facts: &NetworkFacts,
) -> (request: Result<TimeMatrixRequest, Refusal>)
    requires
        facts.wf(),
    ensures
        match time_matrix_fault(router@, from_stops@, date@, departure@, *facts) {
            Some(fault) => request matches Err(refusal) && refused_for(refusal, fault),
            None => request matches Ok(request) && {
                &&& named_router(router@) == Some(request.router)
                &&& Ok::<Seq<u32>, Seq<char>>(request.origins@) == facts.stop_ids(from_stops@)
                &&& Ok::<Moment, Seq<char>>(request.moment) == moment_outcome(date@, departure@)
            },
        },
{
    let router: Router = match parse_router(router) {
        Ok(router) => router,
        Err(error) => return Err(Refusal::Value(error)),
    };
    let origins: Vec<u32> = match named_stops(from_stops, facts) {
        Ok(stops) => stops,
        Err(refusal) => return Err(refusal),
    };
    match at_moment(date, departure) {
        Ok(moment) => Ok(TimeMatrixRequest { router, origins, moment }),
        Err(refusal) => Err(refusal),
    }
}

/// How a time matrix from stops is routed. The street options count only
/// where some origin goes door to door; exclusions keep the closure and the
/// round-based engine.
pub fn time_matrix_route(
    request: &TimeMatrixRequest,
    date: &str,
    excluded: bool,
    snapped: &Vec<bool>,
    walk: WalkOptions,
    facts: &NetworkFacts,
) -> (route: Result<MatrixRoute, ValueError>)
    ensures
        ({
            let usable = door_to_door(request.router, excluded, facts.ultra, snapped@);
            let expected = matrix_route(
                request.router,
                usable,
                date_of(facts.time_date),
                date@,
                excluded,
            );
            if usable && walk_fault(walk) is Some {
                route matches Err(error) && error.message@ == walk_fault(walk)->0
            } else {
                match expected {
                    Ok(expected) => route == Ok::<MatrixRoute, ValueError>(expected),
                    Err(text) => route matches Err(error) && error.message@ == text,
                }
            }
        }),
{
    let usable: bool = ultra_usable(request.router, excluded, facts.ultra, snapped);
    if usable {
        match validated_walking_speed(walk.speed_kmph, walk.max_time, walk.max_snap) {
            Ok(_) => {},
            Err(error) => return Err(error),
        }
    }
    resolve_matrix_route(request.router, usable, facts.time_date, date, excluded)
}

/// A percentile matrix from stops, resolved. It always boards at the stops.
pub struct PercentileRequest {
    pub engine: Engine,
    pub origins: Vec<u32>,
    pub moment: Moment,
}

pub open spec fn engine_outcome(
    router: Seq<char>,
    date: Seq<char>,
    excluded: bool,
    facts: NetworkFacts,
) -> Result<Engine, Seq<char>> {
    match router_fault(router) {
        Some(text) => Err(text),
        None => time_engine(named_router(router)->0, date_of(facts.time_date), date, excluded),
    }
}

fn on_engine(router: &str, date: &str, excluded: bool, facts: &NetworkFacts) -> (engine: Result<
    Engine,
    Refusal,
>)
    ensures
        match value_of(engine_outcome(router@, date@, excluded, *facts)) {
            Some(fault) => engine matches Err(refusal) && refused_for(refusal, fault),
            None => engine matches Ok(engine) && Ok::<Engine, Seq<char>>(engine) == engine_outcome(
                router@,
                date@,
                excluded,
                *facts,
            ),
        },
{
    let router: Router = match parse_router(router) {
        Ok(router) => router,
        Err(error) => return Err(Refusal::Value(error)),
    };
    match resolve_time_router(router, facts.time_date, date, excluded) {
        Ok(engine) => Ok(engine),
        Err(error) => Err(Refusal::Value(error)),
    }
}

/// The window of a percentile query and its percentiles, doubles' bits.
pub struct Percentiles<'a> {
    pub window: u32,
    pub ranks: &'a Vec<u64>,
}

pub open spec fn percentiles_fault(percentiles: Percentiles) -> Option<Fault> {
    value(window_fault(percentiles.window, percentiles.ranks@))
}

fn check_percentiles(percentiles: &Percentiles) -> (checked: Result<(), Refusal>)
    ensures
        match percentiles_fault(*percentiles) {
            Some(fault) => checked matches Err(refusal) && refused_for(refusal, fault),
            None => checked is Ok,
        },
{
    match validate_window(percentiles.window, percentiles.ranks.as_slice()) {
        Ok(_) => Ok(()),
        Err(error) => Err(Refusal::Value(error)),
    }
}

/// What a percentile matrix from stops is refused for.
pub open spec fn percentile_fault(
    percentiles: Percentiles,
    router: Seq<char>,
    excluded: bool,
    from_stops: Seq<String>,
    date: Seq<char>,
    departure: Seq<char>,
    facts: NetworkFacts,
) -> Option<Fault> {
    first_of(
        percentiles_fault(percentiles),
        first_of(
            value_of(engine_outcome(router, date, excluded, facts)),
            first_of(
                key_of(facts.stop_ids(from_stops)),
                value_of(moment_outcome(date, departure)),
            ),
        ),
    )
}

/// Resolves a percentile matrix from stops.
pub fn percentile_request(
    percentiles: &Percentiles,
    router: &str,
    excluded: bool,
    from_stops: &Vec<String>,
    date: &str,
    departure: &str,
    facts: &NetworkFacts,
) -> (request: Result<PercentileRequest, Refusal>)
    requires
        facts.wf(),
    ensures
        match percentile_fault(
            *percentiles,
            router@,
            excluded,
            from_stops@,
            date@,
            departure@,
            *facts,
        ) {
            Some(fault) => request matches Err(refusal) && refused_for(refusal, fault),
            None => request matches Ok(request) && {
                &&& Ok::<Engine, Seq<char>>(request.engine) == engine_outcome(
                    router@,
                    date@,
                    excluded,
                    *facts,
                )
                &&& Ok::<Seq<u32>, Seq<char>>(request.origins@) == facts.stop_ids(from_stops@)
                &&& Ok::<Moment, Seq<char>>(request.moment) == moment_outcome(date@, departure@)
            },
        },
{
    match check_percentiles(percentiles) {
        Ok(_) => {},
        Err(refusal) => return Err(refusal),
    }
    let engine: Engine = match on_engine(router, date, excluded, facts) {
        Ok(engine) => engine,
        Err(refusal) => return Err(refusal),
    };
    let origins: Vec<u32> = match named_stops(from_stops, facts) {
        Ok(stops) => stops,
        Err(refusal) => return Err(refusal),
    };
    match at_moment(date, departure) {
        Ok(moment) => Ok(PercentileRequest { engine, origins, moment }),
        Err(refusal) => Err(refusal),
    }
}

/// A time or percentile matrix between coordinates as it is asked for.
pub struct PointTimeQuery<'a> {
    pub origins: &'a Vec<(u64, u64)>,
    pub destinations: &'a Vec<(u64, u64)>,
    pub date: &'a str,
    pub departure: &'a str,
    pub router: &'a str,
    pub excluded: bool,
    pub walk: WalkOptions,
}

/// A time or percentile matrix between coordinates, resolved.
pub struct PointTimeRequest {
    pub engine: Engine,
    pub transfers: TransferChoice,
    pub moment: Moment,
}

/// What a time or percentile matrix between coordinates is refused for.
pub open spec fn point_time_fault(
    query: PointTimeQuery,
    percentiles: Option<Percentiles>,
    facts: NetworkFacts,
) -> Option<Fault> {
    first_of(
        value_of(engine_outcome(query.router@, query.date@, query.excluded, facts)),
        first_of(
            value(fault_if(!facts.has_streets, NO_STREETS@)),
            first_of(
                match percentiles {
                    Some(percentiles) => percentiles_fault(percentiles),
                    None => None,
                },
                first_of(
                    point_ends_fault(query.origins@, query.destinations@, query.walk),
                    value_of(moment_outcome(query.date@, query.departure@)),
                ),
            ),
        ),
    )
}

/// Resolves a time matrix between coordinates, or, with percentiles, a
/// percentile one. Without exclusions it relaxes the whole-day shortcuts.
pub fn point_time_request(
    query: &PointTimeQuery,
    percentiles: Option<Percentiles>,
    facts: &NetworkFacts,
) -> (request: Result<PointTimeRequest, Refusal>)
    ensures
        match point_time_fault(*query, percentiles, *facts) {
            Some(fault) => request matches Err(refusal) && refused_for(refusal, fault),
            None => request matches Ok(request) && {
                &&& Ok::<Engine, Seq<char>>(request.engine) == engine_outcome(
                    query.router@,
                    query.date@,
                    query.excluded,
                    *facts,
                )
                &&& request.transfers == if query.excluded {
                    TransferChoice::Closure
                } else {
                    time_choice(facts.ultra)
                }
                &&& Ok::<Moment, Seq<char>>(request.moment) == moment_outcome(
                    query.date@,
                    query.departure@,
                )
            },
        },
{
    let engine: Engine = match on_engine(query.router, query.date, query.excluded, facts) {
        Ok(engine) => engine,
        Err(refusal) => return Err(refusal),
    };
    match installed_streets(facts.has_streets) {
        Ok(_) => {},
        Err(error) => return Err(Refusal::Value(error)),
    }
    if let Some(percentiles) = &percentiles {
        match check_percentiles(percentiles) {
            Ok(_) => {},
            Err(refusal) => return Err(refusal),
        }
    }
    match check_point_ends(query.origins, query.destinations, query.walk) {
        Ok(_) => {},
        Err(refusal) => return Err(refusal),
    }
    let transfers: TransferChoice = exclusion_transfers(facts.ultra, query.excluded);
    match at_moment(query.date, query.departure) {
        Ok(moment) => Ok(PointTimeRequest { engine, transfers, moment }),
        Err(refusal) => Err(refusal),
    }
}

/// An arrive-by matrix between stops, resolved; its moment departs at the
/// deadline.
pub struct ReverseRequest {
    pub origins: Vec<u32>,
    pub destinations: Vec<u32>,
    pub moment: Moment,
}

/// What an arrive-by matrix between stops is refused for.
pub open spec fn reverse_fault(
    from_stops: Seq<String>,
    to_stops: Seq<String>,
    date: Seq<char>,
    deadline: Seq<char>,
    facts: NetworkFacts,
) -> Option<Fault> {
    first_of(
        key_of(facts.stop_ids(from_stops)),
        first_of(
            key_of(facts.stop_ids(to_stops)),
            value_of(moment_outcome(date, deadline)),
        ),
    )
}

/// Resolves an arrive-by matrix between stops. It never takes a router: the
/// reverse runs over the closure.
pub fn reverse_request(
    from_stops: &Vec<String>,
    to_stops: &Vec<String>,
    date: &str,
    deadline: &str,
    facts: &NetworkFacts,
) -> (request: Result<ReverseRequest, Refusal>)
    requires
        facts.wf(),
    ensures
        match reverse_fault(from_stops@, to_stops@, date@, deadline@, *facts) {
            Some(fault) => request matches Err(refusal) && refused_for(refusal, fault),
            None => request matches Ok(request) && {
                &&& Ok::<Seq<u32>, Seq<char>>(request.origins@) == facts.stop_ids(from_stops@)
                &&& Ok::<Seq<u32>, Seq<char>>(request.destinations@) == facts.stop_ids(to_stops@)
                &&& Ok::<Moment, Seq<char>>(request.moment) == moment_outcome(date@, deadline@)
            },
        },
{
    let origins: Vec<u32> = match named_stops(from_stops, facts) {
        Ok(stops) => stops,
        Err(refusal) => return Err(refusal),
    };
    let destinations: Vec<u32> = match named_stops(to_stops, facts) {
        Ok(stops) => stops,
        Err(refusal) => return Err(refusal),
    };
    match at_moment(date, deadline) {
        Ok(moment) => Ok(ReverseRequest { origins, destinations, moment }),
        Err(refusal) => Err(refusal),
    }
}

/// What an arrive-by matrix between coordinates is refused for.
pub open spec fn reverse_points_fault(
    origins: Seq<(u64, u64)>,
    destinations: Seq<(u64, u64)>,
    date: Seq<char>,
    deadline: Seq<char>,
    walk: WalkOptions,
    facts: NetworkFacts,
) -> Option<Fault> {
    first_of(
        value(fault_if(!facts.has_streets, NO_STREETS@)),
        first_of(
            point_ends_fault(origins, destinations, walk),
            value_of(moment_outcome(date, deadline)),
        ),
    )
}

/// Resolves an arrive-by matrix between coordinates: the moment of its
/// deadline.
pub fn reverse_points_request(
    origins: &Vec<(u64, u64)>,
    destinations: &Vec<(u64, u64)>,
    date: &str,
    deadline: &str,
    walk: WalkOptions,
    facts: &NetworkFacts,
) -> (request: Result<Moment, Refusal>)
    ensures
        match reverse_points_fault(origins@, destinations@, date@, deadline@, walk, *facts) {
            Some(fault) => request matches Err(refusal) && refused_for(refusal, fault),
            None => request matches Ok(at) && Ok::<Moment, Seq<char>>(at) == moment_outcome(
                date@,
                deadline@,
            ),
        },
{
    match installed_streets(facts.has_streets) {
        Ok(_) => {},
        Err(error) => return Err(Refusal::Value(error)),
    }
    match check_point_ends(origins, destinations, walk) {
        Ok(_) => {},
        Err(refusal) => return Err(refusal),
    }
    at_moment(date, deadline)
}

/// What a fare frontier asks: the departure window and its sampling step, the
/// fare structure and the fare cutoffs, doubles' bits.
pub struct FareFrontierQuery<'a> {
    pub date: &'a str,
    pub departure: &'a str,
    pub window: u32,
    pub departure_step: Option<u32>,
    pub cutoffs: &'a Vec<u64>,
}

/// Whether the tables are of the structure that a frontier prices.
pub open spec fn structure_fault(tables: FareTables, zone: bool) -> Option<Seq<char>> {
    match (tables, zone) {
        (FareTables::RuleBased(_), true) => Some("the zone frontier takes a zone fare structure"@),
        (FareTables::Zone(_), false) => Some(
            "the fare frontier prices rule-based structures only; a zone structure's journeys price through journey_frontiers and annotate_fares"@,
        ),
        _ => None,
    }
}

/// The tables of a fare frontier over a zone structure, or over a rule-based
/// one.
pub open spec fn frontier_tables(
    query: FareFrontierQuery,
    fares: FareSpec,
    zone: bool,
    facts: NetworkFacts,
) -> Result<FareTables, Seq<char>> {
    if query.window == 0 {
        Err("window must be a positive number of seconds"@)
    } else if step_fault(query.window, query.departure_step) is Some {
        Err(step_fault(query.window, query.departure_step)->0)
    } else if !cutoffs_ascend(query.cutoffs@) {
        Err(CUTOFFS_TEXT@)
    } else {
        match fare_outcome(fares, facts.route_count as nat, facts.stop_count as nat) {
            Err(text) => Err(text),
            Ok(tables) => match structure_fault(tables, zone) {
                Some(text) => Err(text),
                None => Ok(tables),
            },
        }
    }
}

fn check_frontier_tables(
    query: &FareFrontierQuery,
    fares: FareSpec,
    zone: bool,
    facts: &NetworkFacts,
) -> (tables: Result<FareTables, Refusal>)
    ensures
        match value_of(frontier_tables(*query, fares, zone, *facts)) {
            Some(fault) => tables matches Err(refusal) && refused_for(refusal, fault),
            None => tables matches Ok(tables) && Ok::<FareTables, Seq<char>>(tables)
                == frontier_tables(*query, fares, zone, *facts),
        },
{
    match check_positive_window(query.window) {
        Ok(_) => {},
        Err(error) => return Err(Refusal::Value(error)),
    }
    match validated_step(query.window, query.departure_step) {
        Ok(_) => {},
        Err(error) => return Err(Refusal::Value(error)),
    }
    match validated_cutoffs(query.cutoffs.as_slice()) {
        Ok(_) => {},
        Err(error) => return Err(Refusal::Value(error)),
    }
    let tables: FareTables = match fare_tables(fares, facts.route_count, facts.stop_count as usize) {
        Ok(tables) => tables,
        Err(error) => return Err(Refusal::Value(error)),
    };
    if zone {
        match zone_structure(tables) {
            Ok(zones) => Ok(FareTables::Zone(zones)),
            Err(error) => Err(Refusal::Value(error)),
        }
    } else {
        match rule_structure(tables) {
            Ok(rules) => Ok(FareTables::RuleBased(rules)),
            Err(error) => Err(Refusal::Value(error)),
        }
    }
}

/// The moment of a departure window that stays on the router clock, which is
/// held against the clock before the date is read.
pub open spec fn windowed_moment(date: Seq<char>, departure: Seq<char>, window: u32) -> Result<
    Moment,
    Seq<char>,
> {
    match clock_outcome(departure) {
        Err(text) => Err(text),
        Ok(seconds) => if seconds + window > u32::MAX {
            Err("departure + window overflows the router clock; narrow the window"@)
        } else {
            match days_outcome(date) {
                Err(text) => Err(text),
                Ok(days) => Ok(
                    Moment { departure: seconds, day: days.0, previous_day: days.1 },
                ),
            }
        },
    }
}

fn at_window(date: &str, departure: &str, window: u32) -> (at: Result<Moment, Refusal>)
    ensures
        match value_of(windowed_moment(date@, departure@, window)) {
            Some(fault) => at matches Err(refusal) && refused_for(refusal, fault),
            None => at matches Ok(at) && Ok::<Moment, Seq<char>>(at) == windowed_moment(
                date@,
                departure@,
                window,
            ),
        },
{
    let departure: u32 = match at_clock(departure) {
        Ok(seconds) => seconds,
        Err(refusal) => return Err(refusal),
    };
    match check_clock(departure, window) {
        Ok(_) => {},
        Err(error) => return Err(Refusal::Value(error)),
    }
    match on_days(date) {
        Ok(days) => Ok(Moment { departure, day: days.0, previous_day: days.1 }),
        Err(refusal) => Err(refusal),
    }
}

/// A fare frontier between stops, resolved.
pub struct FareFrontierRequest {
    pub tables: FareTables,
    pub origins: Vec<u32>,
    pub destinations: Vec<u32>,
    pub moment: Moment,
}

/// What a fare frontier between stops is refused for.
pub open spec fn fare_frontier_fault(
    query: FareFrontierQuery,
    fares: FareSpec,
    zone: bool,
    from_stops: Seq<String>,
    to_stops: Seq<String>,
    facts: NetworkFacts,
) -> Option<Fault> {
    first_of(
        value_of(frontier_tables(query, fares, zone, facts)),
        first_of(
            key_of(facts.stop_ids(from_stops)),
            first_of(
                key_of(facts.stop_ids(to_stops)),
                value_of(windowed_moment(query.date@, query.departure@, query.window)),
            ),
        ),
    )
}

/// Resolves a fare frontier between stops.
pub fn fare_frontier_request(
    query: &FareFrontierQuery,
    fares: FareSpec,
    zone: bool,
    from_stops: &Vec<String>,
    to_stops: &Vec<String>,
    facts: &NetworkFacts,
) -> (request: Result<FareFrontierRequest, Refusal>)
    requires
        facts.wf(),
    ensures
        match fare_frontier_fault(*query, fares, zone, from_stops@, to_stops@, *facts) {
            Some(fault) => request matches Err(refusal) && refused_for(refusal, fault),
            None => request matches Ok(request) && {
                &&& Ok::<FareTables, Seq<char>>(request.tables) == frontier_tables(
                    *query,
                    fares,
                    zone,
                    *facts,
                )
                &&& Ok::<Seq<u32>, Seq<char>>(request.origins@) == facts.stop_ids(from_stops@)
                &&& Ok::<Seq<u32>, Seq<char>>(request.destinations@) == facts.stop_ids(to_stops@)
                &&& Ok::<Moment, Seq<char>>(request.moment) == windowed_moment(
                    query.date@,
                    query.departure@,
                    query.window,
                )
            },
        },
{
    let tables: FareTables = match check_frontier_tables(query, fares, zone, facts) {
        Ok(tables) => tables,
        Err(refusal) => return Err(refusal),
    };
    let origins: Vec<u32> = match named_stops(from_stops, facts) {
        Ok(stops) => stops,
        Err(refusal) => return Err(refusal),
    };
    let destinations: Vec<u32> = match named_stops(to_stops, facts) {
        Ok(stops) => stops,
        Err(refusal) => return Err(refusal),
    };
    match at_window(query.date, query.departure, query.window) {
        Ok(moment) => Ok(FareFrontierRequest { tables, origins, destinations, moment }),
        Err(refusal) => Err(refusal),
    }
}

/// What a fare frontier between coordinates is refused for.
pub open spec fn fare_points_fault(
    query: FareFrontierQuery,
    fares: FareSpec,
    zone: bool,
    origins: Seq<(u64, u64)>,
    destinations: Seq<(u64, u64)>,
    walk: WalkOptions,
    facts: NetworkFacts,
) -> Option<Fault> {
    first_of(
        value_of(frontier_tables(query, fares, zone, facts)),
        first_of(
            value(fault_if(!facts.has_streets, NO_STREETS@)),
            first_of(
                point_ends_fault(origins, destinations, walk),
                value_of(windowed_moment(query.date@, query.departure@, query.window)),
            ),
        ),
    )
}

/// Resolves a fare frontier between coordinates: its tables and its moment.
pub fn fare_points_request(
    query: &FareFrontierQuery,
    fares: FareSpec,
    zone: bool,
    origins: &Vec<(u64, u64)>,
    destinations: &Vec<(u64, u64)>,
    walk: WalkOptions,
    facts: &NetworkFacts,
) -> (request: Result<(FareTables, Moment), Refusal>)
    ensures
        match fare_points_fault(*query, fares, zone, origins@, destinations@, walk, *facts) {
            Some(fault) => request matches Err(refusal) && refused_for(refusal, fault),
            None => request matches Ok(request) && {
                &&& Ok::<FareTables, Seq<char>>(request.0) == frontier_tables(
                    *query,
                    fares,
                    zone,
                    *facts,
                )
                &&& Ok::<Moment, Seq<char>>(request.1) == windowed_moment(
                    query.date@,
                    query.departure@,
                    query.window,
                )
            },
        },
{
    let tables: FareTables = match check_frontier_tables(query, fares, zone, facts) {
        Ok(tables) => tables,
        Err(refusal) => return Err(refusal),
    };
    match installed_streets(facts.has_streets) {
        Ok(_) => {},
        Err(error) => return Err(Refusal::Value(error)),
    }
    match check_point_ends(origins, destinations, walk) {
        Ok(_) => {},
        Err(refusal) => return Err(refusal),
    }
    match at_window(query.date, query.departure, query.window) {
        Ok(moment) => Ok((tables, moment)),
        Err(refusal) => Err(refusal),
    }
}

/// What an emission frontier asks; the bucket is a double's bits.
pub struct FrontierQuery<'a> {
    pub bucket: u64,
    pub router: &'a str,
    pub window: u32,
    pub geometries: bool,
    pub factors: &'a Vec<(String, u64)>,
    pub date: &'a str,
    pub departure: &'a str,
}

pub open spec fn frontier_query_fault(query: FrontierQuery, installed: Installed) -> Option<Fault> {
    value(
        frontier_fault(query.bucket, query.router@, query.window, installed, query.geometries),
    )
}

/// An emission frontier between stops, resolved.
pub struct FrontierRequest {
    pub router: Router,
    pub origins: Vec<u32>,
    pub destinations: Vec<u32>,
    pub per_trip: Vec<u64>,
    pub moment: Moment,
}

/// What an emission frontier between stops is refused for.
pub open spec fn frontier_stops_fault(
    query: FrontierQuery,
    from_stops: Seq<String>,
    to_stops: Seq<String>,
    facts: NetworkFacts,
) -> Option<Fault> {
    first_of(
        frontier_query_fault(query, facts.installed),
        first_of(
            key_of(facts.stop_ids(from_stops)),
            first_of(
                key_of(facts.stop_ids(to_stops)),
                value_of(moment_outcome(query.date@, query.departure@)),
            ),
        ),
    )
}

/// Resolves an emission frontier between stops. It boards at the origins,
/// over the closure.
pub fn frontier_request(
    query: &FrontierQuery,
    from_stops: &Vec<String>,
    to_stops: &Vec<String>,
    facts: &NetworkFacts,
) -> (request: Result<FrontierRequest, Refusal>)
    requires
        facts.wf(),
    ensures
        match frontier_stops_fault(*query, from_stops@, to_stops@, *facts) {
            Some(fault) => request matches Err(refusal) && refused_for(refusal, fault),
            None => request matches Ok(request) && {
                &&& named_router(query.router@) == Some(request.router)
                &&& Ok::<Seq<u32>, Seq<char>>(request.origins@) == facts.stop_ids(from_stops@)
                &&& Ok::<Seq<u32>, Seq<char>>(request.destinations@) == facts.stop_ids(to_stops@)
                &&& request.per_trip@ == facts.factors(query.factors@)
                &&& Ok::<Moment, Seq<char>>(request.moment) == moment_outcome(
                    query.date@,
                    query.departure@,
                )
            },
        },
{
    let router: Router = match check_frontier_request(
        query.bucket,
        query.router,
        query.window,
        facts.installed,
        query.geometries,
    ) {
        Ok(router) => router,
        Err(error) => return Err(Refusal::Value(error)),
    };
    let origins: Vec<u32> = match named_stops(from_stops, facts) {
        Ok(stops) => stops,
        Err(refusal) => return Err(refusal),
    };
    let destinations: Vec<u32> = match named_stops(to_stops, facts) {
        Ok(stops) => stops,
        Err(refusal) => return Err(refusal),
    };
    let per_trip: Vec<u64> = facts.trips.per_trip_factors(query.factors, facts.trip_count);
    match at_moment(query.date, query.departure) {
        Ok(moment) => Ok(FrontierRequest { router, origins, destinations, per_trip, moment }),
        Err(refusal) => Err(refusal),
    }
}

/// An emission frontier between coordinates, resolved.
pub struct FrontierPointsRequest {
    pub router: Router,
    pub per_trip: Vec<u64>,
    pub moment: Moment,
}

/// What an emission frontier between coordinates is refused for.
pub open spec fn frontier_points_fault(
    query: FrontierQuery,
    origins: Seq<(u64, u64)>,
    destinations: Seq<(u64, u64)>,
    walk: WalkOptions,
    facts: NetworkFacts,
) -> Option<Fault> {
    first_of(
        frontier_query_fault(query, facts.installed),
        first_of(
            value(fault_if(!facts.has_streets, NO_STREETS@)),
            first_of(
                point_ends_fault(origins, destinations, walk),
                value_of(moment_outcome(query.date@, query.departure@)),
            ),
        ),
    )
}

/// Resolves an emission frontier between coordinates.
pub fn frontier_points_request(
    query: &FrontierQuery,
    origins: &Vec<(u64, u64)>,
    destinations: &Vec<(u64, u64)>,
    walk: WalkOptions,
    facts: &NetworkFacts,
) -> (request: Result<FrontierPointsRequest, Refusal>)
    requires
        facts.wf(),
    ensures
        match frontier_points_fault(*query, origins@, destinations@, walk, *facts) {
            Some(fault) => request matches Err(refusal) && refused_for(refusal, fault),
            None => request matches Ok(request) && {
                &&& named_router(query.router@) == Some(request.router)
                &&& request.per_trip@ == facts.factors(query.factors@)
                &&& Ok::<Moment, Seq<char>>(request.moment) == moment_outcome(
                    query.date@,
                    query.departure@,
                )
            },
        },
{
    let router: Router = match check_frontier_request(
        query.bucket,
        query.router,
        query.window,
        facts.installed,
        query.geometries,
    ) {
        Ok(router) => router,
        Err(error) => return Err(Refusal::Value(error)),
    };
    match installed_streets(facts.has_streets) {
        Ok(_) => {},
        Err(error) => return Err(Refusal::Value(error)),
    }
    match check_point_ends(origins, destinations, walk) {
        Ok(_) => {},
        Err(refusal) => return Err(refusal),
    }
    let per_trip: Vec<u64> = facts.trips.per_trip_factors(query.factors, facts.trip_count);
    match at_moment(query.date, query.departure) {
        Ok(moment) => Ok(FrontierPointsRequest { router, per_trip, moment }),
        Err(refusal) => Err(refusal),
    }
}

/// An exhaustive frontier between two stops, resolved.
pub struct OracleRequest {
    pub origin: u32,
    pub destination: u32,
    pub per_trip: Vec<u64>,
    pub moment: Moment,
}

/// What an exhaustive frontier is refused for.
pub open spec fn oracle_fault(
    origin: Seq<char>,
    destination: Seq<char>,
    date: Seq<char>,
    departure: Seq<char>,
    facts: NetworkFacts,
) -> Option<Fault> {
    first_of(
        value(fault_if(!facts.installed.distances, NO_DISTANCES@)),
        first_of(
            key_of(stop_id(origin, facts)),
            first_of(
                key_of(stop_id(destination, facts)),
                value_of(moment_outcome(date, departure)),
            ),
        ),
    )
}

/// Resolves an exhaustive frontier between two stops.
pub fn oracle_request(
    origin: &str,
    destination: &str,
    date: &str,
    departure: &str,
    factors: &Vec<(String, u64)>,
    facts: &NetworkFacts,
) -> (request: Result<OracleRequest, Refusal>)
    requires
        facts.wf(),
    ensures
        match oracle_fault(origin@, destination@, date@, departure@, *facts) {
            Some(fault) => request matches Err(refusal) && refused_for(refusal, fault),
            None => request matches Ok(request) && {
                &&& Ok::<u32, Seq<char>>(request.origin) == stop_id(origin@, *facts)
                &&& Ok::<u32, Seq<char>>(request.destination) == stop_id(destination@, *facts)
                &&& request.per_trip@ == facts.factors(factors@)
                &&& Ok::<Moment, Seq<char>>(request.moment) == moment_outcome(date@, departure@)
            },
        },
{
    if !facts.installed.distances {
        return Err(Refusal::Value(ValueError::new(NO_DISTANCES.to_owned())));
    }
    let origin: u32 = match facts.stops.resolve_stop(origin) {
        Ok(stop) => stop,
        Err(error) => return Err(Refusal::Key(error)),
    };
    let destination: u32 = match facts.stops.resolve_stop(destination) {
        Ok(stop) => stop,
        Err(error) => return Err(Refusal::Key(error)),
    };
    let per_trip: Vec<u64> = facts.trips.per_trip_factors(factors, facts.trip_count);
    match at_moment(date, departure) {
        Ok(moment) => Ok(OracleRequest { origin, destination, per_trip, moment }),
        Err(refusal) => Err(refusal),
    }
}

/// What computing walking shortcuts is asked with, doubles as bits.
#[derive(Debug, Clone, Copy, PartialEq, Eq, Structural)]
pub struct ShortcutOptions {
    pub speed_kmph: u64,
    pub max_transfer_time: u64,
    pub min_departure: u32,
    pub max_departure: u32,
}

/// What computing shortcuts is refused for; emission shortcuts need the trip
/// distances too.
pub open spec fn shortcuts_fault(
    options: ShortcutOptions,
    emissions: bool,
    facts: NetworkFacts,
) -> Option<Fault> {
    first_of(
        value(
            shortcut_fault(
                options.speed_kmph,
                options.max_transfer_time,
                options.min_departure,
                options.max_departure,
            ),
        ),
        first_of(
            value(fault_if(emissions && !facts.installed.distances, NO_DISTANCES@)),
            value(fault_if(!facts.has_streets, NO_STREETS@)),
        ),
    )
}

/// Checks a shortcut computation; with factors it is one of emission
/// shortcuts, and the factors are spread over the trips.
pub fn shortcut_request(
    options: ShortcutOptions,
    factors: Option<&Vec<(String, u64)>>,
    facts: &NetworkFacts,
) -> (request: Result<Option<Vec<u64>>, Refusal>)
    requires
        facts.wf(),
    ensures
        match shortcuts_fault(options, factors is Some, *facts) {
            Some(fault) => request matches Err(refusal) && refused_for(refusal, fault),
            None => request matches Ok(per_trip) && match factors {
                Some(factors) => per_trip matches Some(per_trip) && per_trip@ == facts.factors(
                    factors@,
                ),
                None => per_trip is None,
            },
        },
{
    match validate_shortcut_options(
        options.speed_kmph,
        options.max_transfer_time,
        options.min_departure,
        options.max_departure,
    ) {
        Ok(_) => {},
        Err(error) => return Err(Refusal::Value(error)),
    }
    if factors.is_some() && !facts.installed.distances {
        return Err(Refusal::Value(ValueError::new(NO_DISTANCES.to_owned())));
    }
    match installed_streets(facts.has_streets) {
        Ok(_) => {},
        Err(error) => return Err(Refusal::Value(error)),
    }
    match factors {
        Some(factors) => Ok(Some(facts.trips.per_trip_factors(factors, facts.trip_count))),
        None => Ok(None),
    }
}

/// What caching the multicriteria trip transfers of a date is refused for.
pub open spec fn mc_cache_fault(date: Seq<char>, facts: NetworkFacts) -> Option<Fault> {
    first_of(
        value(fault_if(!facts.installed.distances, NO_DISTANCES@)),
        value_of(days_outcome(date)),
    )
}

/// Resolves what caching the multicriteria trip transfers of a date needs:
/// its days and the factors over the trips.
pub fn mc_cache_request(date: &str, factors: &Vec<(String, u64)>, facts: &NetworkFacts) -> (request:
    Result<((i32, i32), Vec<u64>), Refusal>)
    requires
        facts.wf(),
    ensures
        match mc_cache_fault(date@, *facts) {
            Some(fault) => request matches Err(refusal) && refused_for(refusal, fault),
            None => request matches Ok(request) && {
                &&& Ok::<(i32, i32), Seq<char>>(request.0) == days_outcome(date@)
                &&& request.1@ == facts.factors(factors@)
            },
        },
{
    if !facts.installed.distances {
        return Err(Refusal::Value(ValueError::new(NO_DISTANCES.to_owned())));
    }
    match on_days(date) {
        Ok(days) => Ok((days, facts.trips.per_trip_factors(factors, facts.trip_count))),
        Err(refusal) => Err(refusal),
    }
}

pub open spec fn offsets_outcome(offsets: Seq<(String, u32)>, facts: NetworkFacts) -> Result<
    Seq<(u32, u32)>,
    Seq<char>,
> {
    resolved_offsets(*facts.stops, offsets, offsets.len() as int)
}

fn named_offsets(offsets: &Vec<(String, u32)>, facts: &NetworkFacts) -> (resolved: Result<
    Vec<(u32, u32)>,
    Refusal,
>)
    requires
        facts.wf(),
    ensures
        match key_of(offsets_outcome(offsets@, *facts)) {
            Some(fault) => resolved matches Err(refusal) && refused_for(refusal, fault),
            None => resolved matches Ok(resolved) && Ok::<Seq<(u32, u32)>, Seq<char>>(resolved@)
                == offsets_outcome(offsets@, *facts),
        },
{
    match resolve_offsets(facts.stops, offsets) {
        Ok(resolved) => Ok(resolved),
        Err(error) => Err(Refusal::Key(error)),
    }
}

/// The first row among the first `count` whose stops do not all resolve, and
/// why.
pub open spec fn rows_fault(
    rows: Seq<Vec<(String, u32)>>,
    count: int,
    facts: NetworkFacts,
) -> Option<Fault>
    decreases count,
{
    if count <= 0 {
        None
    } else {
        first_of(
            rows_fault(rows, count - 1, facts),
            key_of(offsets_outcome(rows[count - 1]@, facts)),
        )
    }
}

/// Whether every row is resolved.
pub open spec fn rows_resolved(
    resolved: Seq<Vec<(u32, u32)>>,
    rows: Seq<Vec<(String, u32)>>,
    facts: NetworkFacts,
) -> bool {
    &&& resolved.len() == rows.len()
    &&& forall|r: int|
        0 <= r < rows.len() ==> Ok::<Seq<(u32, u32)>, Seq<char>>((#[trigger] resolved[r])@)
            == offsets_outcome(rows[r]@, facts)
}

proof fn lemma_rows_stay_refused(
    rows: Seq<Vec<(String, u32)>>,
    refused: int,
    count: int,
    facts: NetworkFacts,
)
    requires
        0 <= refused <= count,
        rows_fault(rows, refused, facts) is Some,
    ensures
        rows_fault(rows, count, facts) == rows_fault(rows, refused, facts),
    decreases count,
{
    if refused < count {
        lemma_rows_stay_refused(rows, refused, count - 1, facts);
    }
}

fn named_rows(rows: &Vec<Vec<(String, u32)>>, facts: &NetworkFacts) -> (resolved: Result<
    Vec<Vec<(u32, u32)>>,
    Refusal,
>)
    requires
        facts.wf(),
    ensures
        match rows_fault(rows@, rows@.len() as int, *facts) {
            Some(fault) => resolved matches Err(refusal) && refused_for(refusal, fault),
            None => resolved matches Ok(resolved) && rows_resolved(resolved@, rows@, *facts),
        },
{
    let mut resolved: Vec<Vec<(u32, u32)>> = Vec::new();
    let mut at: usize = 0;
    while at < rows.len()
        invariant
            facts.wf(),
            at <= rows@.len(),
            resolved@.len() == at,
            rows_fault(rows@, at as int, *facts) is None,
            forall|r: int|
                0 <= r < at ==> Ok::<Seq<(u32, u32)>, Seq<char>>((#[trigger] resolved@[r])@)
                    == offsets_outcome(rows@[r]@, *facts),
        decreases rows.len() - at,
    {
        match named_offsets(&rows[at], facts) {
            Ok(offsets) => {
                resolved.push(offsets);
            },
            Err(refusal) => {
                proof {
                    lemma_rows_stay_refused(rows@, at + 1, rows@.len() as int, *facts);
                }
                return Err(refusal);
            },
        }
        at += 1;
    }
    Ok(resolved)
}

/// What a street-policy query asks besides its offsets: when it leaves, the
/// transfer binding it wants, whether that binding's edges hide stops, and
/// what is excluded.
pub struct PolicyQuery<'a> {
    pub date: &'a str,
    pub departure: &'a str,
    pub wanted: Option<&'a Binding>,
    pub hides_stops: bool,
    pub excludes_stops: bool,
    pub excluded: bool,
}

pub open spec fn policy_exclusion_fault(query: PolicyQuery) -> Option<Fault> {
    value(fault_if(query.hides_stops && query.excludes_stops, EXCLUDED_INTERIORS@))
}

pub open spec fn bound_outcome(query: PolicyQuery, held: Option<&Binding>) -> Result<
    bool,
    Seq<char>,
> {
    policy_outcome(BoundSet::Mode, lent(held), lent(query.wanted))
}

fn on_bound(query: &PolicyQuery, held: Option<&Binding>) -> (bound: Result<bool, Refusal>)
    ensures
        match value_of(bound_outcome(*query, held)) {
            Some(fault) => bound matches Err(refusal) && refused_for(refusal, fault),
            None => bound matches Ok(bound) && Ok::<bool, Seq<char>>(bound) == bound_outcome(
                *query,
                held,
            ),
        },
{
    match policy_transfers(BoundSet::Mode, held, query.wanted) {
        Ok(bound) => Ok(bound),
        Err(error) => Err(Refusal::Value(error)),
    }
}

fn check_policy(query: &PolicyQuery) -> (checked: Result<(), Refusal>)
    ensures
        match policy_exclusion_fault(*query) {
            Some(fault) => checked matches Err(refusal) && refused_for(refusal, fault),
            None => checked is Ok,
        },
{
    match check_policy_exclusions(query.hides_stops, query.excludes_stops) {
        Ok(_) => Ok(()),
        Err(error) => Err(Refusal::Value(error)),
    }
}

/// A policy time matrix, resolved; `bound` says whether it relaxes the merged
/// set in place of the closure.
pub struct PolicyMatrixRequest {
    pub moment: Moment,
    pub access: Vec<Vec<(u32, u32)>>,
    pub egress: Vec<Vec<(u32, u32)>>,
    pub bound: bool,
    pub engine: Engine,
}

/// What a policy time matrix is refused for.
pub open spec fn policy_matrix_fault(
    query: PolicyQuery,
    router: Seq<char>,
    access: Seq<Vec<(String, u32)>>,
    egress: Seq<Vec<(String, u32)>>,
    held: Option<&Binding>,
    facts: NetworkFacts,
) -> Option<Fault> {
    first_of(
        policy_exclusion_fault(query),
        first_of(
            value_of(moment_outcome(query.date@, query.departure@)),
            first_of(
                rows_fault(access, access.len() as int, facts),
                first_of(
                    rows_fault(egress, egress.len() as int, facts),
                    first_of(
                        value_of(bound_outcome(query, held)),
                        value_of(engine_outcome(router, query.date@, query.excluded, facts)),
                    ),
                ),
            ),
        ),
    )
}

/// Resolves a policy time matrix. The merged set that is held must be bound
/// to just what the policy wants.
pub fn policy_matrix_request(
    query: &PolicyQuery,
    router: &str,
    access: &Vec<Vec<(String, u32)>>,
    egress: &Vec<Vec<(String, u32)>>,
    held: Option<&Binding>,
    facts: &NetworkFacts,
) -> (request: Result<PolicyMatrixRequest, Refusal>)
    requires
        facts.wf(),
    ensures
        match policy_matrix_fault(*query, router@, access@, egress@, held, *facts) {
            Some(fault) => request matches Err(refusal) && refused_for(refusal, fault),
            None => request matches Ok(request) && {
                &&& Ok::<Moment, Seq<char>>(request.moment) == moment_outcome(
                    query.date@,
                    query.departure@,
                )
                &&& rows_resolved(request.access@, access@, *facts)
                &&& rows_resolved(request.egress@, egress@, *facts)
                &&& Ok::<bool, Seq<char>>(request.bound) == bound_outcome(*query, held)
                &&& Ok::<Engine, Seq<char>>(request.engine) == engine_outcome(
                    router@,
                    query.date@,
                    query.excluded,
                    *facts,
                )
            },
        },
{
    match check_policy(query) {
        Ok(_) => {},
        Err(refusal) => return Err(refusal),
    }
    let moment: Moment = match at_moment(query.date, query.departure) {
        Ok(moment) => moment,
        Err(refusal) => return Err(refusal),
    };
    let access: Vec<Vec<(u32, u32)>> = match named_rows(access, facts) {
        Ok(rows) => rows,
        Err(refusal) => return Err(refusal),
    };
    let egress: Vec<Vec<(u32, u32)>> = match named_rows(egress, facts) {
        Ok(rows) => rows,
        Err(refusal) => return Err(refusal),
    };
    let bound: bool = match on_bound(query, held) {
        Ok(bound) => bound,
        Err(refusal) => return Err(refusal),
    };
    match on_engine(router, query.date, query.excluded, facts) {
        Ok(engine) => Ok(PolicyMatrixRequest { moment, access, egress, bound, engine }),
        Err(refusal) => Err(refusal),
    }
}

/// A policy route, resolved.
pub struct PolicyRouteRequest {
    pub moment: Moment,
    pub access: Vec<(u32, u32)>,
    pub egress: Vec<(u32, u32)>,
    pub bound: bool,
}

/// What a policy route is refused for: the clock is read before the offsets
/// are resolved, the date after.
pub open spec fn policy_route_fault(
    query: PolicyQuery,
    access: Seq<(String, u32)>,
    egress: Seq<(String, u32)>,
    held: Option<&Binding>,
    facts: NetworkFacts,
) -> Option<Fault> {
    first_of(
        policy_exclusion_fault(query),
        first_of(
            value_of(clock_outcome(query.departure@)),
            first_of(
                key_of(offsets_outcome(access, facts)),
                first_of(
                    key_of(offsets_outcome(egress, facts)),
                    first_of(
                        value_of(days_outcome(query.date@)),
                        value_of(bound_outcome(query, held)),
                    ),
                ),
            ),
        ),
    )
}

/// Resolves a policy route. Without a wanted binding it relaxes the closure,
/// as the reverse route always does.
pub fn policy_route_request(
    query: &PolicyQuery,
    access: &Vec<(String, u32)>,
    egress: &Vec<(String, u32)>,
    held: Option<&Binding>,
    facts: &NetworkFacts,
) -> (request: Result<PolicyRouteRequest, Refusal>)
    requires
        facts.wf(),
    ensures
        match policy_route_fault(*query, access@, egress@, held, *facts) {
            Some(fault) => request matches Err(refusal) && refused_for(refusal, fault),
            None => request matches Ok(request) && {
                &&& Ok::<Moment, Seq<char>>(request.moment) == moment_outcome(
                    query.date@,
                    query.departure@,
                )
                &&& Ok::<Seq<(u32, u32)>, Seq<char>>(request.access@) == offsets_outcome(
                    access@,
                    *facts,
                )
                &&& Ok::<Seq<(u32, u32)>, Seq<char>>(request.egress@) == offsets_outcome(
                    egress@,
                    *facts,
                )
                &&& Ok::<bool, Seq<char>>(request.bound) == bound_outcome(*query, held)
            },
        },
{
    match check_policy(query) {
        Ok(_) => {},
        Err(refusal) => return Err(refusal),
    }
    let departure: u32 = match at_clock(query.departure) {
        Ok(seconds) => seconds,
        Err(refusal) => return Err(refusal),
    };
    let access: Vec<(u32, u32)> = match named_offsets(access, facts) {
        Ok(offsets) => offsets,
        Err(refusal) => return Err(refusal),
    };
    let egress: Vec<(u32, u32)> = match named_offsets(egress, facts) {
        Ok(offsets) => offsets,
        Err(refusal) => return Err(refusal),
    };
    let days: (i32, i32) = match on_days(query.date) {
        Ok(days) => days,
        Err(refusal) => return Err(refusal),
    };
    let moment: Moment = Moment { departure, day: days.0, previous_day: days.1 };
    match on_bound(query, held) {
        Ok(bound) => Ok(PolicyRouteRequest { moment, access, egress, bound }),
        Err(refusal) => Err(refusal),
    }
}

/// One-to-all times under a policy, resolved.
pub struct PolicyTimesRequest {
    pub moment: Moment,
    pub access: Vec<(u32, u32)>,
    pub engine: Engine,
    pub bound: bool,
}

/// What one-to-all times under a policy are refused for: the engine is
/// resolved before the binding.
pub open spec fn policy_times_fault(
    query: PolicyQuery,
    router: Seq<char>,
    access: Seq<(String, u32)>,
    held: Option<&Binding>,
    facts: NetworkFacts,
) -> Option<Fault> {
    first_of(
        policy_exclusion_fault(query),
        first_of(
            value_of(clock_outcome(query.departure@)),
            first_of(
                key_of(offsets_outcome(access, facts)),
                first_of(
                    value_of(days_outcome(query.date@)),
                    first_of(
                        value_of(engine_outcome(router, query.date@, query.excluded, facts)),
                        value_of(bound_outcome(query, held)),
                    ),
                ),
            ),
        ),
    )
}

/// Resolves one-to-all times under a policy.
pub fn policy_times_request(
    query: &PolicyQuery,
    router: &str,
    access: &Vec<(String, u32)>,
    held: Option<&Binding>,
    facts: &NetworkFacts,
) -> (request: Result<PolicyTimesRequest, Refusal>)
    requires
        facts.wf(),
    ensures
        match policy_times_fault(*query, router@, access@, held, *facts) {
            Some(fault) => request matches Err(refusal) && refused_for(refusal, fault),
            None => request matches Ok(request) && {
                &&& Ok::<Moment, Seq<char>>(request.moment) == moment_outcome(
                    query.date@,
                    query.departure@,
                )
                &&& Ok::<Seq<(u32, u32)>, Seq<char>>(request.access@) == offsets_outcome(
                    access@,
                    *facts,
                )
                &&& Ok::<Engine, Seq<char>>(request.engine) == engine_outcome(
                    router@,
                    query.date@,
                    query.excluded,
                    *facts,
                )
                &&& Ok::<bool, Seq<char>>(request.bound) == bound_outcome(*query, held)
            },
        },
{
    match check_policy(query) {
        Ok(_) => {},
        Err(refusal) => return Err(refusal),
    }
    let departure: u32 = match at_clock(query.departure) {
        Ok(seconds) => seconds,
        Err(refusal) => return Err(refusal),
    };
    let access: Vec<(u32, u32)> = match named_offsets(access, facts) {
        Ok(offsets) => offsets,
        Err(refusal) => return Err(refusal),
    };
    let days: (i32, i32) = match on_days(query.date) {
        Ok(days) => days,
        Err(refusal) => return Err(refusal),
    };
    let engine: Engine = match on_engine(router, query.date, query.excluded, facts) {
        Ok(engine) => engine,
        Err(refusal) => return Err(refusal),
    };
    let moment: Moment = Moment { departure, day: days.0, previous_day: days.1 };
    match on_bound(query, held) {
        Ok(bound) => Ok(PolicyTimesRequest { moment, access, engine, bound }),
        Err(refusal) => Err(refusal),
    }
}

/// A carriage query as it is asked for: the seeds of both planes, and with a
/// route the egress of both.
pub struct CarriageQuery<'a> {
    pub carrying_access: &'a Vec<(String, u32)>,
    pub free_access: &'a Vec<(String, u32)>,
    pub carrying_egress: &'a Vec<(String, u32)>,
    pub free_egress: &'a Vec<(String, u32)>,
    pub date: &'a str,
    pub departure: &'a str,
    pub unknown_rule: &'a str,
    pub park_stops: Option<&'a Vec<String>>,
    pub wanted: Option<&'a Binding>,
}

/// A carriage query, resolved; `bound` says whether the carrying plane relaxes
/// the carriage set in place of the closure.
pub struct CarriageRequest {
    pub moment: Moment,
    pub carrying_access: Vec<(u32, u32)>,
    pub free_access: Vec<(u32, u32)>,
    pub carrying_egress: Vec<(u32, u32)>,
    pub free_egress: Vec<(u32, u32)>,
    pub bound: bool,
    pub carrying: Vec<bool>,
    pub park_stops: Option<Vec<u32>>,
}

pub open spec fn carriage_bound(query: CarriageQuery, held: Option<&Binding>) -> Result<
    bool,
    Seq<char>,
> {
    policy_outcome(BoundSet::Carriage, lent(held), lent(query.wanted))
}

pub open spec fn park_fault(query: CarriageQuery, facts: NetworkFacts) -> Option<Fault> {
    match query.park_stops {
        Some(stops) => key_of(facts.stop_ids(stops@)),
        None => None,
    }
}

/// What a carriage query is refused for.
pub open spec fn carriage_fault(
    query: CarriageQuery,
    held: Option<&Binding>,
    facts: NetworkFacts,
) -> Option<Fault> {
    first_of(
        value_of(clock_outcome(query.departure@)),
        first_of(
            key_of(offsets_outcome(query.carrying_access@, facts)),
            first_of(
                key_of(offsets_outcome(query.free_access@, facts)),
                first_of(
                    key_of(offsets_outcome(query.carrying_egress@, facts)),
                    first_of(
                        key_of(offsets_outcome(query.free_egress@, facts)),
                        first_of(
                            value_of(days_outcome(query.date@)),
                            first_of(
                                value_of(carriage_bound(query, held)),
                                first_of(
                                    value_of(unknown_rule(query.unknown_rule@)),
                                    park_fault(query, facts),
                                ),
                            ),
                        ),
                    ),
                ),
            ),
        ),
    )
}

/// Whether a request is what a carriage query resolves to.
pub open spec fn resolves_carriage(
    request: CarriageRequest,
    query: CarriageQuery,
    bikes_allowed: Seq<Option<bool>>,
    held: Option<&Binding>,
    facts: NetworkFacts,
) -> bool {
    &&& Ok::<Moment, Seq<char>>(request.moment) == moment_outcome(query.date@, query.departure@)
    &&& Ok::<Seq<(u32, u32)>, Seq<char>>(request.carrying_access@) == offsets_outcome(
        query.carrying_access@,
        facts,
    )
    &&& Ok::<Seq<(u32, u32)>, Seq<char>>(request.free_access@) == offsets_outcome(
        query.free_access@,
        facts,
    )
    &&& Ok::<Seq<(u32, u32)>, Seq<char>>(request.carrying_egress@) == offsets_outcome(
        query.carrying_egress@,
        facts,
    )
    &&& Ok::<Seq<(u32, u32)>, Seq<char>>(request.free_egress@) == offsets_outcome(
        query.free_egress@,
        facts,
    )
    &&& Ok::<bool, Seq<char>>(request.bound) == carriage_bound(query, held)
    &&& request.carrying@ == bikes_allowed.map_values(
        |allowed: Option<bool>| carries(allowed, unknown_rule(query.unknown_rule@)->Ok_0),
    )
    &&& match query.park_stops {
        Some(stops) => request.park_stops matches Some(parks) && Ok::<Seq<u32>, Seq<char>>(parks@)
            == facts.stop_ids(stops@),
        None => request.park_stops is None,
    }
}

/// Resolves a carriage query over trips that say, or do not say, whether they
/// take the vehicle.
pub fn carriage_request(
    query: &CarriageQuery,
    bikes_allowed: &Vec<Option<bool>>,
    held: Option<&Binding>,
    facts: &NetworkFacts,
) -> (request: Result<CarriageRequest, Refusal>)
    requires
        facts.wf(),
    ensures
        match carriage_fault(*query, held, *facts) {
            Some(fault) => request matches Err(refusal) && refused_for(refusal, fault),
            None => request matches Ok(request) && resolves_carriage(
                request,
                *query,
                bikes_allowed@,
                held,
                *facts,
            ),
        },
{
    let departure: u32 = match at_clock(query.departure) {
        Ok(seconds) => seconds,
        Err(refusal) => return Err(refusal),
    };
    let carrying_access: Vec<(u32, u32)> = match named_offsets(query.carrying_access, facts) {
        Ok(offsets) => offsets,
        Err(refusal) => return Err(refusal),
    };
    let free_access: Vec<(u32, u32)> = match named_offsets(query.free_access, facts) {
        Ok(offsets) => offsets,
        Err(refusal) => return Err(refusal),
    };
    let carrying_egress: Vec<(u32, u32)> = match named_offsets(query.carrying_egress, facts) {
        Ok(offsets) => offsets,
        Err(refusal) => return Err(refusal),
    };
    let free_egress: Vec<(u32, u32)> = match named_offsets(query.free_egress, facts) {
        Ok(offsets) => offsets,
        Err(refusal) => return Err(refusal),
    };
    let days: (i32, i32) = match on_days(query.date) {
        Ok(days) => days,
        Err(refusal) => return Err(refusal),
    };
    let bound: bool = match policy_transfers(BoundSet::Carriage, held, query.wanted) {
        Ok(bound) => bound,
        Err(error) => return Err(Refusal::Value(error)),
    };
    let allow_unknown: bool = match parse_unknown_rule(query.unknown_rule) {
        Ok(allowed) => allowed,
        Err(error) => return Err(Refusal::Value(error)),
    };
    let carrying: Vec<bool> = carrying_mask(bikes_allowed, allow_unknown);
    let park_stops: Option<Vec<u32>> = match query.park_stops {
        Some(stops) => match named_stops(stops, facts) {
            Ok(stops) => Some(stops),
            Err(refusal) => return Err(refusal),
        },
        None => None,
    };
    let moment: Moment = Moment { departure, day: days.0, previous_day: days.1 };
    Ok(
        CarriageRequest {
            moment,
            carrying_access,
            free_access,
            carrying_egress,
            free_egress,
            bound,
            carrying,
            park_stops,
        },
    )
}

/// Under exclusions every time query that gets an engine gets the round-based
/// one, whatever is cached and whatever router it names.
pub proof fn law_exclusions_take_the_round_engine(
    router: Seq<char>,
    date: Seq<char>,
    facts: NetworkFacts,
)
    ensures
        engine_outcome(router, date, true, facts) matches Ok(engine) ==> engine == Engine::Raptor,
{
}

/// The window of an accepted fare frontier stays on the router clock, and
/// reading the date after the window changes nothing about its moment.
pub proof fn law_accepted_windows_stay_on_the_clock(
    date: Seq<char>,
    departure: Seq<char>,
    window: u32,
)
    ensures
        windowed_moment(date, departure, window) matches Ok(at) ==> at.departure + window
            <= u32::MAX && moment_outcome(date, departure) == Ok::<Moment, Seq<char>>(at),
{
}

/// A policy matrix and a policy route that relax a merged set relax one that
/// is held and bound to just what the policy wants.
pub proof fn law_policies_relax_what_they_want(query: PolicyQuery, held: Option<&Binding>)
    ensures
        bound_outcome(query, held) == Ok::<bool, Seq<char>>(true) ==> held is Some
            && query.wanted is Some && bound_to(*held->0, *query.wanted->0),
        query.wanted is None ==> bound_outcome(query, held) == Ok::<bool, Seq<char>>(false),
{
}

/// A clock time reads as its seconds.
pub proof fn law_clocks_read_as_seconds(time: Seq<char>)
    ensures
        clock_outcome(time) is Ok <==> clock_seconds(time) is Some,
        clock_outcome(time) matches Ok(seconds) ==> clock_seconds(time) == Some(seconds),
{
}

/// A date's two days follow one another; a moment is the clock time on them.
pub proof fn law_days_follow_one_another(date: Seq<char>, departure: Seq<char>)
    requires
        read_day(date, date_format()) matches Ok(day) ==> i32::MIN < day,
    ensures
        days_outcome(date) matches Ok((day, previous)) ==> previous + 1 == day && read_day(
            date,
            date_format(),
        ) == Ok::<i32, Seq<char>>(day),
        moment_outcome(date, departure) is Ok <==> clock_outcome(departure) is Ok && days_outcome(
            date,
        ) is Ok,
        moment_outcome(date, departure) matches Ok(at) ==> days_outcome(date) == Ok::<
            (i32, i32),
            Seq<char>,
        >((at.day, at.previous_day)) && clock_outcome(departure) == Ok::<u32, Seq<char>>(
            at.departure,
        ),
{
}

/// The ends of a coordinate matrix are refused for the earliest of: the
/// walking options; the origins; the destinations.
pub proof fn law_point_ends_refuse_in_order(
    origins: Seq<(u64, u64)>,
    destinations: Seq<(u64, u64)>,
    walk: WalkOptions,
)
    ensures
        is_earliest(
            point_ends_fault(origins, destinations, walk),
            seq![value(walk_fault(walk)), points_fault(origins), points_fault(destinations)],
        ),
{
    lemma_earliest_of_three(
        value(walk_fault(walk)),
        points_fault(origins),
        points_fault(destinations),
    );
}

/// A time matrix from stops is refused for the earliest of: its router; its
/// origins; its moment.
pub proof fn law_time_matrices_refuse_in_order(
    router: Seq<char>,
    from_stops: Seq<String>,
    date: Seq<char>,
    departure: Seq<char>,
    facts: NetworkFacts,
)
    ensures
        is_earliest(
            time_matrix_fault(router, from_stops, date, departure, facts),
            seq![
                value(router_fault(router)),
                key_of(facts.stop_ids(from_stops)),
                value_of(moment_outcome(date, departure)),
            ],
        ),
{
    lemma_earliest_of_three(
        value(router_fault(router)),
        key_of(facts.stop_ids(from_stops)),
        value_of(moment_outcome(date, departure)),
    );
}

/// A query gets an engine where its router is known and can answer it: it runs
/// on trips where it names them, or where it leaves the choice and the cached
/// set is for its date, and excludes nothing.
pub proof fn law_queries_get_their_engine(
    router: Seq<char>,
    date: Seq<char>,
    excluded: bool,
    facts: NetworkFacts,
)
    ensures
        engine_outcome(router, date, excluded, facts) is Ok <==> (named_router(router) matches Some(
            named,
        ) && !(named == Router::Tbtr && excluded)),
        engine_outcome(router, date, excluded, facts) matches Ok(engine) ==> (engine == Engine::Tbtr
            <==> !excluded && (named_router(router) == Some(Router::Tbtr) || named_router(router)
            == Some(Router::Auto) && date_of(facts.time_date) == Some(date))),
{
}

/// A percentile matrix from stops is refused for the earliest of: its window
/// and percentiles; its engine; its origins; its moment.
pub proof fn law_percentile_matrices_refuse_in_order(
    percentiles: Percentiles,
    router: Seq<char>,
    excluded: bool,
    from_stops: Seq<String>,
    date: Seq<char>,
    departure: Seq<char>,
    facts: NetworkFacts,
)
    ensures
        is_earliest(
            percentile_fault(percentiles, router, excluded, from_stops, date, departure, facts),
            seq![
                value(window_fault(percentiles.window, percentiles.ranks@)),
                value_of(engine_outcome(router, date, excluded, facts)),
                key_of(facts.stop_ids(from_stops)),
                value_of(moment_outcome(date, departure)),
            ],
        ),
{
    lemma_earliest_of_four(
        value(window_fault(percentiles.window, percentiles.ranks@)),
        value_of(engine_outcome(router, date, excluded, facts)),
        key_of(facts.stop_ids(from_stops)),
        value_of(moment_outcome(date, departure)),
    );
}

/// A time matrix between coordinates is refused for the earliest of: its
/// engine; missing streets; its window and percentiles, where it has them; its
/// ends; its moment.
pub proof fn law_point_times_refuse_in_order(
    query: PointTimeQuery,
    percentiles: Option<Percentiles>,
    facts: NetworkFacts,
)
    ensures
        is_earliest(
            point_time_fault(query, percentiles, facts),
            seq![
                value_of(engine_outcome(query.router@, query.date@, query.excluded, facts)),
                value(fault_if(!facts.has_streets, NO_STREETS@)),
                optional_percentiles_fault(percentiles),
                point_ends_fault(query.origins@, query.destinations@, query.walk),
                value_of(moment_outcome(query.date@, query.departure@)),
            ],
        ),
{
    lemma_earliest_of_five(
        value_of(engine_outcome(query.router@, query.date@, query.excluded, facts)),
        value(fault_if(!facts.has_streets, NO_STREETS@)),
        optional_percentiles_fault(percentiles),
        point_ends_fault(query.origins@, query.destinations@, query.walk),
        value_of(moment_outcome(query.date@, query.departure@)),
    );
}

/// What percentiles are refused for, where there are some.
pub open spec fn optional_percentiles_fault(percentiles: Option<Percentiles>) -> Option<Fault> {
    match percentiles {
        Some(percentiles) => value(window_fault(percentiles.window, percentiles.ranks@)),
        None => None,
    }
}

/// An arrive-by matrix between stops is refused for the earliest of: its
/// origins; its destinations; its moment. One between coordinates for the
/// earliest of: missing streets; its ends; its moment.
pub proof fn law_reverse_matrices_refuse_in_order(
    from_stops: Seq<String>,
    to_stops: Seq<String>,
    origins: Seq<(u64, u64)>,
    destinations: Seq<(u64, u64)>,
    date: Seq<char>,
    deadline: Seq<char>,
    walk: WalkOptions,
    facts: NetworkFacts,
)
    ensures
        is_earliest(
            reverse_fault(from_stops, to_stops, date, deadline, facts),
            seq![
                key_of(facts.stop_ids(from_stops)),
                key_of(facts.stop_ids(to_stops)),
                value_of(moment_outcome(date, deadline)),
            ],
        ),
        is_earliest(
            reverse_points_fault(origins, destinations, date, deadline, walk, facts),
            seq![
                value(fault_if(!facts.has_streets, NO_STREETS@)),
                point_ends_fault(origins, destinations, walk),
                value_of(moment_outcome(date, deadline)),
            ],
        ),
{
    lemma_earliest_of_three(
        key_of(facts.stop_ids(from_stops)),
        key_of(facts.stop_ids(to_stops)),
        value_of(moment_outcome(date, deadline)),
    );
    lemma_earliest_of_three(
        value(fault_if(!facts.has_streets, NO_STREETS@)),
        point_ends_fault(origins, destinations, walk),
        value_of(moment_outcome(date, deadline)),
    );
}

/// A frontier prices the tables of its own structure: zone tables where it is
/// the zone frontier, rule tables where it is not.
pub proof fn law_frontiers_price_their_structure(tables: FareTables, zone: bool)
    ensures
        structure_fault(tables, zone) is None <==> (tables is Zone <==> zone),
{
}

/// The tables of a fare frontier come about exactly where its window is not
/// empty, its step samples in bounds, its cutoffs rise and its fares are
/// accepted and of its structure; they are then those fares.
pub proof fn law_frontier_tables_are_the_fares(
    query: FareFrontierQuery,
    fares: FareSpec,
    zone: bool,
    facts: NetworkFacts,
)
    ensures
        ({
            let accepted = fare_outcome(
                fares,
                facts.route_count as nat,
                facts.stop_count as nat,
            );
            let tables = frontier_tables(query, fares, zone, facts);
            &&& tables is Ok <==> query.window > 0 && step_fault(
                query.window,
                query.departure_step,
            ) is None && cutoffs_ascend(query.cutoffs@) && accepted is Ok && (accepted->Ok_0 is Zone
                <==> zone)
            &&& tables is Ok ==> tables == accepted
        }),
{
}

/// A windowed moment comes about exactly where its clock time reads, its
/// window stays on the clock and its date reads; the clock comes first.
pub proof fn law_windowed_moments(date: Seq<char>, departure: Seq<char>, window: u32)
    ensures
        windowed_moment(date, departure, window) is Ok <==> clock_seconds(departure) is Some
            && clock_seconds(departure)->0 + window <= u32::MAX && days_outcome(date) is Ok,
        windowed_moment(date, departure, window) matches Ok(at) ==> clock_seconds(departure)
            == Some(at.departure) && days_outcome(date) == Ok::<(i32, i32), Seq<char>>(
            (at.day, at.previous_day),
        ),
{
}

/// A fare frontier is refused for the earliest of: its tables; then, between
/// stops, its origins, its destinations and its moment, and between
/// coordinates missing streets, its ends and its moment.
pub proof fn law_fare_frontiers_refuse_in_order(
    query: FareFrontierQuery,
    fares: FareSpec,
    zone: bool,
    from_stops: Seq<String>,
    to_stops: Seq<String>,
    origins: Seq<(u64, u64)>,
    destinations: Seq<(u64, u64)>,
    walk: WalkOptions,
    facts: NetworkFacts,
)
    ensures
        is_earliest(
            fare_frontier_fault(query, fares, zone, from_stops, to_stops, facts),
            seq![
                value_of(frontier_tables(query, fares, zone, facts)),
                key_of(facts.stop_ids(from_stops)),
                key_of(facts.stop_ids(to_stops)),
                value_of(windowed_moment(query.date@, query.departure@, query.window)),
            ],
        ),
        is_earliest(
            fare_points_fault(query, fares, zone, origins, destinations, walk, facts),
            seq![
                value_of(frontier_tables(query, fares, zone, facts)),
                value(fault_if(!facts.has_streets, NO_STREETS@)),
                point_ends_fault(origins, destinations, walk),
                value_of(windowed_moment(query.date@, query.departure@, query.window)),
            ],
        ),
{
    lemma_earliest_of_four(
        value_of(frontier_tables(query, fares, zone, facts)),
        key_of(facts.stop_ids(from_stops)),
        key_of(facts.stop_ids(to_stops)),
        value_of(windowed_moment(query.date@, query.departure@, query.window)),
    );
    lemma_earliest_of_four(
        value_of(frontier_tables(query, fares, zone, facts)),
        value(fault_if(!facts.has_streets, NO_STREETS@)),
        point_ends_fault(origins, destinations, walk),
        value_of(windowed_moment(query.date@, query.departure@, query.window)),
    );
}

/// An emission frontier is refused for the earliest of: its options and what
/// is installed; then, between stops, its origins, its destinations and its
/// moment, and between coordinates missing streets, its ends and its moment.
pub proof fn law_emission_frontiers_refuse_in_order(
    query: FrontierQuery,
    from_stops: Seq<String>,
    to_stops: Seq<String>,
    origins: Seq<(u64, u64)>,
    destinations: Seq<(u64, u64)>,
    walk: WalkOptions,
    facts: NetworkFacts,
)
    ensures
        is_earliest(
            frontier_stops_fault(query, from_stops, to_stops, facts),
            seq![
                value(
                    frontier_fault(
                        query.bucket,
                        query.router@,
                        query.window,
                        facts.installed,
                        query.geometries,
                    ),
                ),
                key_of(facts.stop_ids(from_stops)),
                key_of(facts.stop_ids(to_stops)),
                value_of(moment_outcome(query.date@, query.departure@)),
            ],
        ),
        is_earliest(
            frontier_points_fault(query, origins, destinations, walk, facts),
            seq![
                value(
                    frontier_fault(
                        query.bucket,
                        query.router@,
                        query.window,
                        facts.installed,
                        query.geometries,
                    ),
                ),
                value(fault_if(!facts.has_streets, NO_STREETS@)),
                point_ends_fault(origins, destinations, walk),
                value_of(moment_outcome(query.date@, query.departure@)),
            ],
        ),
{
    lemma_earliest_of_four(
        frontier_query_fault(query, facts.installed),
        key_of(facts.stop_ids(from_stops)),
        key_of(facts.stop_ids(to_stops)),
        value_of(moment_outcome(query.date@, query.departure@)),
    );
    lemma_earliest_of_four(
        frontier_query_fault(query, facts.installed),
        value(fault_if(!facts.has_streets, NO_STREETS@)),
        point_ends_fault(origins, destinations, walk),
        value_of(moment_outcome(query.date@, query.departure@)),
    );
}

/// An exhaustive frontier is refused for the earliest of: missing distances;
/// its origin; its destination; its moment. Cached emission transfers are for
/// missing distances, then for their date.
pub proof fn law_exhaustive_frontiers_refuse_in_order(
    origin: Seq<char>,
    destination: Seq<char>,
    date: Seq<char>,
    departure: Seq<char>,
    facts: NetworkFacts,
)
    ensures
        is_earliest(
            oracle_fault(origin, destination, date, departure, facts),
            seq![
                value(fault_if(!facts.installed.distances, NO_DISTANCES@)),
                key_of(stop_id(origin, facts)),
                key_of(stop_id(destination, facts)),
                value_of(moment_outcome(date, departure)),
            ],
        ),
        is_earliest(
            mc_cache_fault(date, facts),
            seq![
                value(fault_if(!facts.installed.distances, NO_DISTANCES@)),
                value_of(days_outcome(date)),
            ],
        ),
{
    lemma_earliest_of_four(
        value(fault_if(!facts.installed.distances, NO_DISTANCES@)),
        key_of(stop_id(origin, facts)),
        key_of(stop_id(destination, facts)),
        value_of(moment_outcome(date, departure)),
    );
    lemma_earliest_of_two(
        value(fault_if(!facts.installed.distances, NO_DISTANCES@)),
        value_of(days_outcome(date)),
    );
}

/// Shortcuts are computed exactly where their options are accepted, there are
/// streets, and distances too where they are for emissions.
pub proof fn law_shortcuts_need_streets(
    options: ShortcutOptions,
    emissions: bool,
    facts: NetworkFacts,
)
    ensures
        shortcuts_fault(options, emissions, facts) is None <==> shortcut_fault(
            options.speed_kmph,
            options.max_transfer_time,
            options.min_departure,
            options.max_departure,
        ) is None && facts.has_streets && (emissions ==> facts.installed.distances),
        facts.has_streets && !emissions ==> shortcuts_fault(options, emissions, facts) == value(
            shortcut_fault(
                options.speed_kmph,
                options.max_transfer_time,
                options.min_departure,
                options.max_departure,
            ),
        ),
{
}

/// Rows of offsets are refused for the first row that does not resolve, and
/// not at all where every row does.
pub proof fn law_the_first_unresolved_row_decides(
    rows: Seq<Vec<(String, u32)>>,
    count: int,
    facts: NetworkFacts,
)
    requires
        0 <= count <= rows.len(),
    ensures
        match rows_fault(rows, count, facts) {
            None => forall|r: int|
                0 <= r < count ==> offsets_outcome((#[trigger] rows[r])@, facts) is Ok,
            Some(fault) => exists|r: int|
                0 <= r < count && key_of(offsets_outcome((#[trigger] rows[r])@, facts)) == Some(
                    fault,
                ) && forall|q: int|
                    0 <= q < r ==> offsets_outcome((#[trigger] rows[q])@, facts) is Ok,
        },
    decreases count,
{
    if count > 0 {
        law_the_first_unresolved_row_decides(rows, count - 1, facts);
        if let Some(fault) = rows_fault(rows, count - 1, facts) {
            let r = choose|r: int|
                0 <= r < count - 1 && key_of(offsets_outcome((#[trigger] rows[r])@, facts)) == Some(
                    fault,
                ) && forall|q: int|
                    0 <= q < r ==> offsets_outcome((#[trigger] rows[q])@, facts) is Ok;
            assert(key_of(offsets_outcome(rows[r]@, facts)) == Some(fault));
        } else if let Some(fault) = rows_fault(rows, count, facts) {
            assert(key_of(offsets_outcome(rows[count - 1]@, facts)) == Some(fault));
        }
    }
}

/// A policy is refused for excluded stops exactly where it both hides stops
/// inside its transfers and excludes some.
pub proof fn law_hidden_stops_are_not_excluded(query: PolicyQuery)
    ensures
        policy_exclusion_fault(query) is Some <==> query.hides_stops && query.excludes_stops,
{
}

/// A policy matrix is refused for the earliest of: its exclusions; its moment;
/// its access; its egress; its set; its engine.
pub proof fn law_policy_matrices_refuse_in_order(
    query: PolicyQuery,
    router: Seq<char>,
    access: Seq<Vec<(String, u32)>>,
    egress: Seq<Vec<(String, u32)>>,
    held: Option<&Binding>,
    facts: NetworkFacts,
)
    ensures
        is_earliest(
            policy_matrix_fault(query, router, access, egress, held, facts),
            seq![
                policy_exclusion_fault(query),
                value_of(moment_outcome(query.date@, query.departure@)),
                rows_fault(access, access.len() as int, facts),
                rows_fault(egress, egress.len() as int, facts),
                value_of(bound_outcome(query, held)),
                value_of(engine_outcome(router, query.date@, query.excluded, facts)),
            ],
        ),
{
    lemma_earliest_of_six(
        policy_exclusion_fault(query),
        value_of(moment_outcome(query.date@, query.departure@)),
        rows_fault(access, access.len() as int, facts),
        rows_fault(egress, egress.len() as int, facts),
        value_of(bound_outcome(query, held)),
        value_of(engine_outcome(router, query.date@, query.excluded, facts)),
    );
}

/// A policy route is refused for the earliest of: its exclusions; its clock
/// time; its access; its egress; its date; its set.
pub proof fn law_policy_routes_refuse_in_order(
    query: PolicyQuery,
    access: Seq<(String, u32)>,
    egress: Seq<(String, u32)>,
    held: Option<&Binding>,
    facts: NetworkFacts,
)
    ensures
        is_earliest(
            policy_route_fault(query, access, egress, held, facts),
            seq![
                policy_exclusion_fault(query),
                value_of(clock_outcome(query.departure@)),
                key_of(offsets_outcome(access, facts)),
                key_of(offsets_outcome(egress, facts)),
                value_of(days_outcome(query.date@)),
                value_of(bound_outcome(query, held)),
            ],
        ),
{
    lemma_earliest_of_six(
        policy_exclusion_fault(query),
        value_of(clock_outcome(query.departure@)),
        key_of(offsets_outcome(access, facts)),
        key_of(offsets_outcome(egress, facts)),
        value_of(days_outcome(query.date@)),
        value_of(bound_outcome(query, held)),
    );
}

/// Times under a policy are refused for the earliest of: its exclusions; its
/// clock time; its access; its date; its engine; its set.
pub proof fn law_policy_times_refuse_in_order(
    query: PolicyQuery,
    router: Seq<char>,
    access: Seq<(String, u32)>,
    held: Option<&Binding>,
    facts: NetworkFacts,
)
    ensures
        is_earliest(
            policy_times_fault(query, router, access, held, facts),
            seq![
                policy_exclusion_fault(query),
                value_of(clock_outcome(query.departure@)),
                key_of(offsets_outcome(access, facts)),
                value_of(days_outcome(query.date@)),
                value_of(engine_outcome(router, query.date@, query.excluded, facts)),
                value_of(bound_outcome(query, held)),
            ],
        ),
{
    lemma_earliest_of_six(
        policy_exclusion_fault(query),
        value_of(clock_outcome(query.departure@)),
        key_of(offsets_outcome(access, facts)),
        value_of(days_outcome(query.date@)),
        value_of(engine_outcome(router, query.date@, query.excluded, facts)),
        value_of(bound_outcome(query, held)),
    );
}

/// A carriage query is refused for the earliest of: its clock time; its
/// carrying access; its free access; its carrying egress; its free egress; its
/// date; its set; its rule on unknown trips; its parking stops.
pub proof fn law_carriage_queries_refuse_in_order(
    query: CarriageQuery,
    held: Option<&Binding>,
    facts: NetworkFacts,
)
    ensures
        is_earliest(
            carriage_fault(query, held, facts),
            seq![
                value_of(clock_outcome(query.departure@)),
                key_of(offsets_outcome(query.carrying_access@, facts)),
                key_of(offsets_outcome(query.free_access@, facts)),
                key_of(offsets_outcome(query.carrying_egress@, facts)),
                key_of(offsets_outcome(query.free_egress@, facts)),
                value_of(days_outcome(query.date@)),
                value_of(carriage_bound(query, held)),
                value_of(unknown_rule(query.unknown_rule@)),
                park_fault(query, facts),
            ],
        ),
{
    lemma_earliest_of_nine(
        value_of(clock_outcome(query.departure@)),
        key_of(offsets_outcome(query.carrying_access@, facts)),
        key_of(offsets_outcome(query.free_access@, facts)),
        key_of(offsets_outcome(query.carrying_egress@, facts)),
        key_of(offsets_outcome(query.free_egress@, facts)),
        value_of(days_outcome(query.date@)),
        value_of(carriage_bound(query, held)),
        value_of(unknown_rule(query.unknown_rule@)),
        park_fault(query, facts),
    );
}

/// A carriage request has the query's own offsets, each beside its seconds, on
/// the plane and side they were given for, and carries on the trips that say
/// so or, where the rule allows, say nothing.
pub proof fn law_carriage_requests_keep_their_planes(
    request: CarriageRequest,
    query: CarriageQuery,
    bikes_allowed: Seq<Option<bool>>,
    held: Option<&Binding>,
    facts: NetworkFacts,
    i: int,
)
    requires
        resolves_carriage(request, query, bikes_allowed, held, facts),
        carriage_fault(query, held, facts) is None,
    ensures
        request.carrying_access@.len() == query.carrying_access@.len(),
        request.free_access@.len() == query.free_access@.len(),
        request.carrying_egress@.len() == query.carrying_egress@.len(),
        request.free_egress@.len() == query.free_egress@.len(),
        0 <= i < query.carrying_access@.len() ==> request.carrying_access@[i].1
            == query.carrying_access@[i].1,
        0 <= i < query.free_access@.len() ==> request.free_access@[i].1
            == query.free_access@[i].1,
        0 <= i < query.carrying_egress@.len() ==> request.carrying_egress@[i].1
            == query.carrying_egress@[i].1,
        0 <= i < query.free_egress@.len() ==> request.free_egress@[i].1
            == query.free_egress@[i].1,
        request.carrying@.len() == bikes_allowed.len(),
        0 <= i < bikes_allowed.len() ==> (bikes_allowed[i] matches Some(said)
            ==> request.carrying@[i] == said),
        0 <= i < bikes_allowed.len() && bikes_allowed[i] is None ==> (request.carrying@[i]
            <==> query.unknown_rule@ == "allow"@),
        request.park_stops is Some <==> query.park_stops is Some,
{
    law_offsets_keep_their_seconds(
        *facts.stops,
        query.carrying_access@,
        query.carrying_access@.len() as int,
    );
    law_offsets_keep_their_seconds(
        *facts.stops,
        query.free_access@,
        query.free_access@.len() as int,
    );
    law_offsets_keep_their_seconds(
        *facts.stops,
        query.carrying_egress@,
        query.carrying_egress@.len() as int,
    );
    law_offsets_keep_their_seconds(
        *facts.stops,
        query.free_egress@,
        query.free_egress@.len() as int,
    );
    law_unknown_trips_follow_the_rule(query.unknown_rule@);
}

/// Resolved rows stand where their rows do, offset by offset, with the seconds
/// they came with.
pub proof fn law_resolved_rows_keep_their_seconds(
    resolved: Seq<Vec<(u32, u32)>>,
    rows: Seq<Vec<(String, u32)>>,
    facts: NetworkFacts,
    row: int,
    at: int,
)
    requires
        rows_resolved(resolved, rows, facts),
        0 <= row < rows.len(),
    ensures
        resolved.len() == rows.len(),
        resolved[row]@.len() == rows[row]@.len(),
        0 <= at < rows[row]@.len() ==> resolved[row]@[at].1 == rows[row]@[at].1 && stop_id(
            rows[row]@[at].0@,
            facts,
        ) == Ok::<u32, Seq<char>>(resolved[row]@[at].0),
{
    assert(Ok::<Seq<(u32, u32)>, Seq<char>>(resolved[row]@) == offsets_outcome(rows[row]@, facts));
    law_offsets_keep_their_seconds(*facts.stops, rows[row]@, rows[row]@.len() as int);
}

} // verus!
