//! What cost, frontier and policy requests are refused for, in the order
//! they are refused.

use crate::bytes::{equal, f64_equal, f64_is_cost, f64_is_positive, f64_less, is_cost, is_positive, less};
use crate::dispatch::{named_router, parse_router, Candidates, Router};
use crate::options::{debug_text, invalid_router_text, quoted};
use crate::text::{joined, joined_text, same_text, ValueError};
use vstd::prelude::*;

verus! {

pub const NO_DISTANCES: &'static str =
    "no trip distances installed; build the network with trip distances enabled";

pub const NO_LEG_GEOMETRIES: &'static str =
    "no leg geometries installed; build the network with leg geometries enabled";

pub const NO_STREETS: &'static str =
    "no street network installed; build the network with an OSM extract";

pub const EMPTY_WINDOW: &'static str = "window must be a positive number of seconds";

pub const BAD_BUCKET: &'static str = "bucket must be a positive number of grams";

/// The first of two faults.
pub open spec fn first_fault(first: Option<Seq<char>>, second: Option<Seq<char>>) -> Option<
    Seq<char>,
> {
    match first {
        Some(text) => Some(text),
        None => second,
    }
}

/// A fault where a condition holds.
pub open spec fn fault_if(refused: bool, text: Seq<char>) -> Option<Seq<char>> {
    if refused {
        Some(text)
    } else {
        None
    }
}

pub open spec fn router_fault(router: Seq<char>) -> Option<Seq<char>> {
    fault_if(named_router(router) is None, invalid_router_text(quoted(router)))
}

fn refuse<T>(text: &str) -> (refused: Result<T, ValueError>)
    ensures
        refused matches Err(error) && error.message@ == text@,
{
    Err(ValueError::new(text.to_owned()))
}

/// Rejects a coordinate query on a network without streets.
pub fn installed_streets(installed: bool) -> (checked: Result<(), ValueError>)
    ensures
        match fault_if(!installed, NO_STREETS@) {
            Some(text) => checked matches Err(error) && error.message@ == text,
            None => checked is Ok,
        },
{
    if installed {
        Ok(())
    } else {
        refuse(NO_STREETS)
    }
}

/// What a network has installed that cost queries need.
#[derive(Debug, Clone, Copy, PartialEq, Eq, Structural)]
pub struct Installed {
    pub distances: bool,
    pub leg_geometries: bool,
}

/// What a cost matrix is refused for before its fares are read: an unknown
/// router, missing trip distances, missing leg geometries where geometries
/// are wanted, an empty window where there is one.
pub open spec fn cost_fault(
    router: Seq<char>,
    installed: Installed,
    geometries: bool,
    window: Option<u32>,
) -> Option<Seq<char>> {
    first_fault(
        router_fault(router),
        first_fault(
            fault_if(!installed.distances, NO_DISTANCES@),
            first_fault(
                fault_if(geometries && !installed.leg_geometries, NO_LEG_GEOMETRIES@),
                fault_if(window == Some(0u32), EMPTY_WINDOW@),
            ),
        ),
    )
}

/// Checks a cost matrix request and names its router.
pub fn check_cost_request(
    router: &str,
    installed: Installed,
    geometries: bool,
    window: Option<u32>,
) -> (checked: Result<Router, ValueError>)
    ensures
        match cost_fault(router@, installed, geometries, window) {
            Some(text) => checked matches Err(error) && error.message@ == text,
            None => checked matches Ok(named) && named_router(router@) == Some(named),
        },
{
    let named: Router = match parse_router(router) {
        Ok(named) => named,
        Err(error) => return Err(error),
    };
    if !installed.distances {
        return refuse(NO_DISTANCES);
    }
    if geometries && !installed.leg_geometries {
        return refuse(NO_LEG_GEOMETRIES);
    }
    if let Some(window) = window {
        if window == 0 {
            return refuse(EMPTY_WINDOW);
        }
    }
    Ok(named)
}

/// What the candidates of a least-cost matrix are refused for: an unknown
/// name; pareto candidates beside another objective than emissions, or with
/// a bucket that is no positive amount.
pub open spec fn candidates_fault(candidates: Seq<char>, objective: Seq<char>, bucket: u64) -> Option<
    Seq<char>,
> {
    first_fault(
        fault_if(
            candidates != "time"@ && candidates != "pareto"@,
            "candidates must be 'time' or 'pareto'"@,
        ),
        first_fault(
            fault_if(
                candidates == "pareto"@ && objective != "emissions"@,
                "pareto candidates support the 'emissions' objective only"@,
            ),
            fault_if(candidates == "pareto"@ && !f64_is_positive(bucket), BAD_BUCKET@),
        ),
    )
}

/// Checks the candidates of a least-cost matrix.
pub fn check_candidates(candidates: &str, objective: &str, bucket: u64) -> (checked: Result<
    Candidates,
    ValueError,
>)
    ensures
        match candidates_fault(candidates@, objective@, bucket) {
            Some(text) => checked matches Err(error) && error.message@ == text,
            None => checked matches Ok(kind) && kind == if candidates@ == "pareto"@ {
                Candidates::Pareto
            } else {
                Candidates::Time
            },
        },
{
    if same_text(candidates, "pareto") {
        if !same_text(objective, "emissions") {
            return refuse("pareto candidates support the 'emissions' objective only");
        }
        if !is_positive(bucket) {
            return refuse(BAD_BUCKET);
        }
        return Ok(Candidates::Pareto);
    }
    if !same_text(candidates, "time") {
        return refuse("candidates must be 'time' or 'pareto'");
    }
    Ok(Candidates::Time)
}

/// What a frontier matrix is refused for.
pub open spec fn frontier_fault(
    bucket: u64,
    router: Seq<char>,
    window: u32,
    installed: Installed,
    geometries: bool,
) -> Option<Seq<char>> {
    first_fault(
        fault_if(!f64_is_positive(bucket), BAD_BUCKET@),
        first_fault(
            router_fault(router),
            first_fault(
                fault_if(window == 0, EMPTY_WINDOW@),
                first_fault(
                    fault_if(!installed.distances, NO_DISTANCES@),
                    fault_if(geometries && !installed.leg_geometries, NO_LEG_GEOMETRIES@),
                ),
            ),
        ),
    )
}

/// Checks a frontier matrix request and names its router.
pub fn check_frontier_request(
    bucket: u64,
    router: &str,
    window: u32,
    installed: Installed,
    geometries: bool,
) -> (checked: Result<Router, ValueError>)
    ensures
        match frontier_fault(bucket, router@, window, installed, geometries) {
            Some(text) => checked matches Err(error) && error.message@ == text,
            None => checked matches Ok(named) && named_router(router@) == Some(named),
        },
{
    if !is_positive(bucket) {
        return refuse(BAD_BUCKET);
    }
    let named: Router = match parse_router(router) {
        Ok(named) => named,
        Err(error) => return Err(error),
    };
    if window == 0 {
        return refuse(EMPTY_WINDOW);
    }
    if !installed.distances {
        return refuse(NO_DISTANCES);
    }
    if geometries && !installed.leg_geometries {
        return refuse(NO_LEG_GEOMETRIES);
    }
    Ok(named)
}

/// The candidate options of a multicriteria route: slack in seconds as a
/// double's bits, how many options at most, whether routes are banned or
/// penalized, whether slower journeys are cut.
#[derive(Debug, Clone, Copy, PartialEq, Eq, Structural)]
pub struct RouteOptions {
    pub bucket: u64,
    pub slack: u64,
    pub max_options: Option<usize>,
    pub diverse: bool,
    pub banded: bool,
}

pub open spec fn relaxed(options: RouteOptions) -> bool {
    f64_less(0, options.slack)
}

/// Whether only the round-based engine answers the options.
pub open spec fn needs_raptor(options: RouteOptions) -> bool {
    relaxed(options) || options.diverse
}

/// What the options of a multicriteria route share of refusals.
pub open spec fn shared_fault(options: RouteOptions, router: Seq<char>) -> Option<Seq<char>> {
    first_fault(
        fault_if(!f64_is_positive(options.bucket), BAD_BUCKET@),
        first_fault(
            router_fault(router),
            first_fault(
                fault_if(
                    !f64_is_cost(options.slack),
                    "slack must be a non-negative number of seconds"@,
                ),
                fault_if(
                    options.max_options == Some(0usize),
                    "max_options must be a positive integer"@,
                ),
            ),
        ),
    )
}

/// What a multicriteria route is refused for, between stops or, with
/// `coordinates`, between coordinates.
pub open spec fn mc_route_fault(
    options: RouteOptions,
    router: Seq<char>,
    coordinates: bool,
    distances: bool,
) -> Option<Seq<char>> {
    let trip_based = named_router(router) == Some(Router::Tbtr);
    first_fault(
        shared_fault(options, router),
        first_fault(
            if coordinates {
                fault_if(
                    trip_based && needs_raptor(options),
                    "route slacks, bans and penalties require router='raptor'"@,
                )
            } else {
                first_fault(
                    fault_if(
                        trip_based && relaxed(options),
                        "relaxed candidates (slack > 0) require router='raptor'"@,
                    ),
                    fault_if(
                        trip_based && options.diverse,
                        "route bans/penalties (diverse candidates) require router='raptor'"@,
                    ),
                )
            },
            first_fault(
                fault_if(
                    options.banded && needs_raptor(options),
                    "max_slower requires strict pareto candidates"@,
                ),
                fault_if(!distances, NO_DISTANCES@),
            ),
        ),
    )
}

fn check_shared(options: RouteOptions, router: &str) -> (checked: Result<Router, ValueError>)
    ensures
        match shared_fault(options, router@) {
            Some(text) => checked matches Err(error) && error.message@ == text,
            None => checked matches Ok(named) && named_router(router@) == Some(named),
        },
{
    if !is_positive(options.bucket) {
        return refuse(BAD_BUCKET);
    }
    let named: Router = match parse_router(router) {
        Ok(named) => named,
        Err(error) => return Err(error),
    };
    if !is_cost(options.slack) {
        return refuse("slack must be a non-negative number of seconds");
    }
    if let Some(most) = options.max_options {
        if most == 0 {
            return refuse("max_options must be a positive integer");
        }
    }
    Ok(named)
}

/// Checks the options of a multicriteria route and names its router.
pub fn check_mc_route(options: RouteOptions, router: &str, coordinates: bool, distances: bool) -> (
    checked: Result<Router, ValueError>)
    ensures
        match mc_route_fault(options, router@, coordinates, distances) {
            Some(text) => checked matches Err(error) && error.message@ == text,
            None => checked matches Ok(named) && named_router(router@) == Some(named),
        },
{
    let named: Router = match check_shared(options, router) {
        Ok(named) => named,
        Err(error) => return Err(error),
    };
    let relaxed: bool = less(0, options.slack);
    let trip_based: bool = named == Router::Tbtr;
    if coordinates {
        if trip_based && (relaxed || options.diverse) {
            return refuse("route slacks, bans and penalties require router='raptor'");
        }
    } else {
        if trip_based && relaxed {
            return refuse("relaxed candidates (slack > 0) require router='raptor'");
        }
        if trip_based && options.diverse {
            return refuse("route bans/penalties (diverse candidates) require router='raptor'");
        }
    }
    if options.banded && (relaxed || options.diverse) {
        return refuse("max_slower requires strict pareto candidates");
    }
    if !distances {
        return refuse(NO_DISTANCES);
    }
    Ok(named)
}

/// An accepted route that the trip-based engine is asked for is one it can
/// answer.
pub proof fn law_accepted_routes_are_answerable(
    options: RouteOptions,
    router: Seq<char>,
    coordinates: bool,
    distances: bool,
)
    requires
        mc_route_fault(options, router, coordinates, distances) is None,
    ensures
        named_router(router) is Some,
        named_router(router) == Some(Router::Tbtr) ==> !needs_raptor(options),
        options.banded ==> !needs_raptor(options),
        distances,
{
}

/// What a computed transfer set is bound to: the mode it was computed for
/// and its budget, a double's bits, with the budget as it prints.
pub struct Binding {
    pub mode: String,
    pub budget: u64,
    pub budget_text: String,
}

pub open spec fn bound_to(held: Binding, wanted: Binding) -> bool {
    held.mode@ == wanted.mode@ && f64_equal(held.budget, wanted.budget)
}

fn is_bound(held: &Binding, wanted: &Binding) -> (bound: bool)
    ensures
        bound == bound_to(*held, *wanted),
{
    same_text(held.mode.as_str(), wanted.mode.as_str()) && equal(held.budget, wanted.budget)
}

/// Which computed sets a binding is asked of.
#[derive(Debug, Clone, Copy, PartialEq, Eq, Structural)]
pub enum BoundSet {
    Mode,
    Carriage,
}

pub open spec fn unbound_text(set: BoundSet) -> Seq<char> {
    match set {
        BoundSet::Mode =>
            "street_policy transfers= needs the merged transfer set;                  compute it with compute_mode_transfers(mode, budget)"@,
        BoundSet::Carriage =>
            "street_policy transfers= with a carried vehicle needs the carriage set; compute it with compute_carriage_transfers(mode, budget)"@,
    }
}

pub open spec fn mismatch_text(set: BoundSet, held: Binding, wanted: Binding) -> Seq<char> {
    match set {
        BoundSet::Mode => joined_text(
            seq![
                "the computed mode-transfer set is bound to ('"@,
                held.mode@,
                "', "@,
                held.budget_text@,
                " s), not                  ('"@,
                wanted.mode@,
                "', "@,
                wanted.budget_text@,
                " s); recompute with compute_mode_transfers"@,
            ],
        ),
        BoundSet::Carriage => joined_text(
            seq![
                "the computed carriage set is bound to ('"@,
                held.mode@,
                "', "@,
                held.budget_text@,
                " s), not ('"@,
                wanted.mode@,
                "', "@,
                wanted.budget_text@,
                " s); recompute with compute_carriage_transfers"@,
            ],
        ),
    }
}

/// Whether a policy query relaxes the computed set: where it asks for one,
/// the set must be there and bound to just what is asked. Without one it
/// relaxes the closure.
pub open spec fn policy_outcome(
    set: BoundSet,
    held: Option<Binding>,
    wanted: Option<Binding>,
) -> Result<bool, Seq<char>> {
    match wanted {
        None => Ok(false),
        Some(wanted) => match held {
            Some(held) => if bound_to(held, wanted) {
                Ok(true)
            } else {
                Err(mismatch_text(set, held, wanted))
            },
            None => Err(unbound_text(set)),
        },
    }
}


pub open spec fn lent(binding: Option<&Binding>) -> Option<Binding> {
    match binding {
        Some(binding) => Some(*binding),
        None => None,
    }
}

/// Whether a policy query relaxes the computed set instead of the closure.
pub fn policy_transfers(set: BoundSet, held: Option<&Binding>, wanted: Option<&Binding>) -> (
    computed: Result<bool, ValueError>)
    ensures
        match policy_outcome(set, lent(held), lent(wanted)) {
            Ok(expected) => computed == Ok::<bool, ValueError>(expected),
            Err(text) => computed matches Err(error) && error.message@ == text,
        },
{
    let wanted: &Binding = match wanted {
        Some(wanted) => wanted,
        None => return Ok(false),
    };
    let held: &Binding = match held {
        Some(held) => held,
        None => {
            return match set {
                BoundSet::Mode => refuse(
                    "street_policy transfers= needs the merged transfer set;                  compute it with compute_mode_transfers(mode, budget)",
                ),
                BoundSet::Carriage => refuse(
                    "street_policy transfers= with a carried vehicle needs the carriage set; compute it with compute_carriage_transfers(mode, budget)",
                ),
            };
        },
    };
    if is_bound(held, wanted) {
        return Ok(true);
    }
    let (lead, middle, end): (&str, &str, &str) = match set {
        BoundSet::Mode => (
            "the computed mode-transfer set is bound to ('",
            " s), not                  ('",
            " s); recompute with compute_mode_transfers",
        ),
        BoundSet::Carriage => (
            "the computed carriage set is bound to ('",
            " s), not ('",
            " s); recompute with compute_carriage_transfers",
        ),
    };
    let pieces: [&str; 9] = [
        lead,
        held.mode.as_str(),
        "', ",
        held.budget_text.as_str(),
        middle,
        wanted.mode.as_str(),
        "', ",
        wanted.budget_text.as_str(),
        end,
    ];
    let text = joined(&pieces);
    assert(pieces@.map_values(|piece: &str| piece@) =~= seq![
        lead@,
        held.mode@,
        "', "@,
        held.budget_text@,
        middle@,
        wanted.mode@,
        "', "@,
        wanted.budget_text@,
        end@,
    ]);
    Err(ValueError::new(text))
}

pub const EXCLUDED_INTERIORS: &'static str =
    "stop exclusions do not combine with street_policy transfers= yet; a rental transfer's interior stops are not exclusion-aware";

/// Rejects stop exclusions beside a transfer set whose edges hide stops:
/// `hides_stops` says whether the asked-for mode is no walking one.
pub fn check_policy_exclusions(hides_stops: bool, excludes_stops: bool) -> (checked: Result<
    (),
    ValueError,
>)
    ensures
        match fault_if(hides_stops && excludes_stops, EXCLUDED_INTERIORS@) {
            Some(text) => checked matches Err(error) && error.message@ == text,
            None => checked is Ok,
        },
{
    if hides_stops && excludes_stops {
        refuse(EXCLUDED_INTERIORS)
    } else {
        Ok(())
    }
}

/// What computing a set for a vehicle mode is refused for.
pub open spec fn vehicle_set_fault(set: BoundSet, mode: Seq<char>, max_seconds: u64) -> Option<
    Seq<char>,
> {
    first_fault(
        fault_if(
            mode == "walk"@,
            match set {
                BoundSet::Mode =>
                    "walking transfers are the installed set; mode transfers take a shared vehicle mode"@,
                BoundSet::Carriage =>
                    "walking needs no carriage; the carriage set takes the carried vehicle's mode"@,
            },
        ),
        fault_if(
            !f64_is_positive(max_seconds),
            "max_seconds must be a positive, finite transfer budget"@,
        ),
    )
}

/// Checks the mode and budget a vehicle's transfer set is computed for.
pub fn check_vehicle_set(set: BoundSet, mode: &str, max_seconds: u64) -> (checked: Result<
    (),
    ValueError,
>)
    ensures
        match vehicle_set_fault(set, mode@, max_seconds) {
            Some(text) => checked matches Err(error) && error.message@ == text,
            None => checked is Ok,
        },
{
    if same_text(mode, "walk") {
        return match set {
            BoundSet::Mode => refuse(
                "walking transfers are the installed set; mode transfers take a shared vehicle mode",
            ),
            BoundSet::Carriage => refuse(
                "walking needs no carriage; the carriage set takes the carried vehicle's mode",
            ),
        };
    }
    if !is_positive(max_seconds) {
        return refuse("max_seconds must be a positive, finite transfer budget");
    }
    Ok(())
}

/// Whether trips without a word on bicycles carry them.
pub open spec fn unknown_rule(rule: Seq<char>) -> Result<bool, Seq<char>> {
    if rule == "forbid"@ {
        Ok(false)
    } else if rule == "allow"@ {
        Ok(true)
    } else {
        Err(
            joined_text(
                seq!["unknown_bike_trips must be 'forbid' or 'allow', not "@, quoted(rule)],
            ),
        )
    }
}

/// Parses whether trips without a word on bicycles carry them.
pub fn parse_unknown_rule(rule: &str) -> (allowed: Result<bool, ValueError>)
    ensures
        match unknown_rule(rule@) {
            Ok(expected) => allowed == Ok::<bool, ValueError>(expected),
            Err(text) => allowed matches Err(error) && error.message@ == text,
        },
{
    if same_text(rule, "forbid") {
        return Ok(false);
    }
    if same_text(rule, "allow") {
        return Ok(true);
    }
    let form = debug_text(rule);
    let pieces: [&str; 2] = [
        "unknown_bike_trips must be 'forbid' or 'allow', not ",
        form.as_str(),
    ];
    let text = joined(&pieces);
    assert(pieces@.map_values(|piece: &str| piece@) =~= seq![
        "unknown_bike_trips must be 'forbid' or 'allow', not "@,
        quoted(rule@),
    ]);
    Err(ValueError::new(text))
}

/// A cost request is accepted exactly where its router is known, distances
/// are installed, geometries too where they are wanted, and its window, if it
/// has one, is not empty. Of several faults the router's is named first.
pub proof fn law_cost_requests(
    router: Seq<char>,
    installed: Installed,
    geometries: bool,
    window: Option<u32>,
)
    ensures
        cost_fault(router, installed, geometries, window) is None <==> named_router(router) is Some
            && installed.distances && (geometries ==> installed.leg_geometries) && (window matches Some(
            seconds,
        ) ==> seconds > 0),
        named_router(router) is None ==> cost_fault(router, installed, geometries, window)
            == router_fault(router),
        named_router(router) is Some && !installed.distances ==> cost_fault(
            router,
            installed,
            geometries,
            window,
        ) == Some(NO_DISTANCES@),
{
}

/// Candidates are accepted exactly where they are by time, or pareto beside
/// the emissions objective with a positive bucket.
pub proof fn law_candidates_are_by_time_or_pareto(
    candidates: Seq<char>,
    objective: Seq<char>,
    bucket: u64,
)
    ensures
        candidates_fault(candidates, objective, bucket) is None <==> candidates == "time"@
            || candidates == "pareto"@ && objective == "emissions"@ && f64_is_positive(bucket),
{
    reveal_strlit("time");
    reveal_strlit("pareto");
    assert("time"@.len() == 4);
    assert("pareto"@.len() == 6);
}

/// A frontier request is accepted exactly where its bucket is positive, its
/// router known, its window not empty, distances are installed, and geometries
/// too where they are wanted. Of several faults the bucket's is named first.
pub proof fn law_frontier_requests(
    bucket: u64,
    router: Seq<char>,
    window: u32,
    installed: Installed,
    geometries: bool,
)
    ensures
        frontier_fault(bucket, router, window, installed, geometries) is None <==> f64_is_positive(
            bucket,
        ) && named_router(router) is Some && window > 0 && installed.distances && (geometries
            ==> installed.leg_geometries),
        !f64_is_positive(bucket) ==> frontier_fault(bucket, router, window, installed, geometries)
            == Some(BAD_BUCKET@),
{
}

/// A multicriteria route is accepted exactly where its bucket is positive, its
/// router known, its slack an amount and its option count not zero; where it
/// asks for rounds, by slack or diversity, neither for trips nor for a band;
/// and where distances are installed.
pub proof fn law_multicriteria_requests(
    options: RouteOptions,
    router: Seq<char>,
    coordinates: bool,
    distances: bool,
)
    ensures
        ({
            let rounds = f64_less(0, options.slack) || options.diverse;
            mc_route_fault(options, router, coordinates, distances) is None <==> f64_is_positive(
                options.bucket,
            ) && named_router(router) is Some && f64_is_cost(options.slack) && (
            options.max_options matches Some(count) ==> count > 0) && (rounds ==> named_router(
                router,
            ) != Some(Router::Tbtr) && !options.banded) && distances
        }),
        needs_raptor(options) <==> f64_less(0, options.slack) || options.diverse,
{
}

/// A policy query without a vehicle's set relaxes the closure. One with a set
/// relaxes the computed one where that is bound to the same mode and an equal
/// budget, and is refused where it is bound to anything else or not computed.
pub proof fn law_policies_relax_what_is_bound(
    set: BoundSet,
    held: Option<Binding>,
    wanted: Option<Binding>,
)
    ensures
        wanted is None ==> policy_outcome(set, held, wanted) == Ok::<bool, Seq<char>>(false),
        wanted is Some && held is None ==> policy_outcome(set, held, wanted) is Err,
        wanted is Some && held is Some ==> {
            let bound = held->0.mode@ == wanted->0.mode@ && f64_equal(
                held->0.budget,
                wanted->0.budget,
            );
            &&& bound ==> policy_outcome(set, held, wanted) == Ok::<bool, Seq<char>>(true)
            &&& !bound ==> policy_outcome(set, held, wanted) is Err
        },
{
}

/// A vehicle's set is computed for any mode but walking, under a positive
/// budget.
pub proof fn law_vehicle_sets_take_vehicles(set: BoundSet, mode: Seq<char>, max_seconds: u64)
    ensures
        vehicle_set_fault(set, mode, max_seconds) is None <==> mode != "walk"@ && f64_is_positive(
            max_seconds,
        ),
{
}

/// Trips that say nothing carry where the rule allows and do not where it
/// forbids; there is no other rule.
pub proof fn law_unknown_trips_follow_the_rule(rule: Seq<char>)
    ensures
        unknown_rule(rule) == Ok::<bool, Seq<char>>(true) <==> rule == "allow"@,
        unknown_rule(rule) == Ok::<bool, Seq<char>>(false) <==> rule == "forbid"@,
        unknown_rule(rule) is Ok ==> rule == "allow"@ || rule == "forbid"@,
{
    reveal_strlit("allow");
    reveal_strlit("forbid");
    assert("allow"@.len() == 5);
    assert("forbid"@.len() == 6);
}

} // verus!
