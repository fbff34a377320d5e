//! Which engine and which transfers serve a query.

use crate::options::{invalid_router, invalid_router_text, quoted};
use crate::text::{same_text, ValueError};
use vstd::prelude::*;

verus! {

/// The routing engine a caller asks for.
#[derive(Debug, Clone, Copy, PartialEq, Eq, Structural)]
pub enum Router {
    Auto,
    Raptor,
    Tbtr,
}

/// The routing engine that runs.
#[derive(Debug, Clone, Copy, PartialEq, Eq, Structural)]
pub enum Engine {
    Raptor,
    Tbtr,
}

pub open spec fn named_router(name: Seq<char>) -> Option<Router> {
    if name == "auto"@ {
        Some(Router::Auto)
    } else if name == "raptor"@ {
        Some(Router::Raptor)
    } else if name == "tbtr"@ {
        Some(Router::Tbtr)
    } else {
        None
    }
}

/// The engine a `router` value names.
pub fn parse_router(name: &str) -> (router: Result<Router, ValueError>)
    ensures
        match named_router(name@) {
            Some(expected) => router == Ok::<Router, ValueError>(expected),
            None => router matches Err(error) && error.message@ == invalid_router_text(
                quoted(name@),
            ),
        },
{
    if same_text(name, "auto") {
        Ok(Router::Auto)
    } else if same_text(name, "raptor") {
        Ok(Router::Raptor)
    } else if same_text(name, "tbtr") {
        Ok(Router::Tbtr)
    } else {
        Err(invalid_router(name))
    }
}

pub open spec fn date_of(date: Option<&str>) -> Option<Seq<char>> {
    match date {
        Some(date) => Some(date@),
        None => None,
    }
}

pub const EXCLUSIONS_TEXT: &'static str = "route/trip/stop exclusions require router='raptor'";

/// The engine of a time query. A trip-based engine cannot answer a query
/// that needs the round-based one; `auto` takes it where its cached set is
/// for the date.
pub open spec fn time_engine(
    router: Router,
    cached: Option<Seq<char>>,
    date: Seq<char>,
    needs_raptor: bool,
) -> Result<Engine, Seq<char>> {
    match router {
        Router::Raptor => Ok(Engine::Raptor),
        Router::Tbtr => if needs_raptor {
            Err(EXCLUSIONS_TEXT@)
        } else {
            Ok(Engine::Tbtr)
        },
        Router::Auto => if !needs_raptor && cached == Some(date) {
            Ok(Engine::Tbtr)
        } else {
            Ok(Engine::Raptor)
        },
    }
}

fn is_cached(cached: Option<&str>, date: &str) -> (held: bool)
    ensures
        held == (date_of(cached) == Some(date@)),
{
    match cached {
        Some(cached) => same_text(cached, date),
        None => false,
    }
}

/// Resolves the engine of a time query.
pub fn resolve_time_router(router: Router, cached: Option<&str>, date: &str, needs_raptor: bool) -> (
    engine: Result<Engine, ValueError>)
    ensures
        match time_engine(router, date_of(cached), date@, needs_raptor) {
            Ok(expected) => engine == Ok::<Engine, ValueError>(expected),
            Err(text) => engine matches Err(error) && error.message@ == text,
        },
{
    match router {
        Router::Raptor => Ok(Engine::Raptor),
        Router::Tbtr => if needs_raptor {
            Err(ValueError::new(EXCLUSIONS_TEXT.to_owned()))
        } else {
            Ok(Engine::Tbtr)
        },
        Router::Auto => if !needs_raptor && is_cached(cached, date) {
            Ok(Engine::Tbtr)
        } else {
            Ok(Engine::Raptor)
        },
    }
}

/// The engine of a multicriteria query: `auto` takes the trip-based one
/// where its cached set is for the date and the factors, and nothing asks
/// for what it cannot answer.
pub open spec fn mc_engine(
    router: Router,
    cached: Option<Seq<char>>,
    same_factors: bool,
    date: Seq<char>,
    needs_raptor: bool,
) -> Engine {
    match router {
        Router::Raptor => Engine::Raptor,
        Router::Tbtr => Engine::Tbtr,
        Router::Auto => if !needs_raptor && cached == Some(date) && same_factors {
            Engine::Tbtr
        } else {
            Engine::Raptor
        },
    }
}

/// Resolves the engine of a multicriteria query; `same_factors` says whether
/// the cached set was built for the query's factors.
pub fn resolve_mc_router(
    router: Router,
    cached: Option<&str>,
    same_factors: bool,
    date: &str,
    needs_raptor: bool,
) -> (engine: Engine)
    ensures
        engine == mc_engine(router, date_of(cached), same_factors, date@, needs_raptor),
{
    match router {
        Router::Raptor => Engine::Raptor,
        Router::Tbtr => Engine::Tbtr,
        Router::Auto => if !needs_raptor && same_factors && is_cached(cached, date) {
            Engine::Tbtr
        } else {
            Engine::Raptor
        },
    }
}

/// An explicit engine is never traded for another.
pub proof fn law_explicit_engines_stand(
    cached: Option<Seq<char>>,
    same_factors: bool,
    date: Seq<char>,
    needs_raptor: bool,
)
    ensures
        time_engine(Router::Raptor, cached, date, needs_raptor) == Ok::<Engine, Seq<char>>(
            Engine::Raptor,
        ),
        time_engine(Router::Tbtr, cached, date, needs_raptor) != Ok::<Engine, Seq<char>>(
            Engine::Raptor,
        ),
        mc_engine(Router::Raptor, cached, same_factors, date, needs_raptor) == Engine::Raptor,
        mc_engine(Router::Tbtr, cached, same_factors, date, needs_raptor) == Engine::Tbtr,
{
}

/// The departures that a precomputed shortcut set covers.
pub type Window = (u32, u32);

/// Whether a set covers the whole day: a query outside its window would
/// silently lose transfers.
pub open spec fn whole_day(window: Option<Window>) -> bool {
    window matches Some((lo, hi)) && lo == 0 && hi >= u32::MAX - 1
}

/// Whether a shortcut set, given by its window, serves every query.
pub fn ultra_active(window: Option<Window>) -> (active: bool)
    ensures
        active == whole_day(window),
{
    match window {
        Some((lo, hi)) => lo == 0 && hi >= u32::MAX - 1,
        None => false,
    }
}

/// The transfers a query relaxes between rides.
#[derive(Debug, Clone, Copy, PartialEq, Eq, Structural)]
pub enum TransferChoice {
    /// The installed footpaths, closed under walking.
    Closure,
    /// The shortcut set of the time engines.
    Ultra,
    /// The shortcut set of the emission engines.
    McUltra,
}

pub open spec fn time_choice(window: Option<Window>) -> TransferChoice {
    if whole_day(window) {
        TransferChoice::Ultra
    } else {
        TransferChoice::Closure
    }
}

/// The transfers of a time query.
pub fn time_transfers(window: Option<Window>) -> (choice: TransferChoice)
    ensures
        choice == time_choice(window),
{
    if ultra_active(window) {
        TransferChoice::Ultra
    } else {
        TransferChoice::Closure
    }
}

/// The transfers of a time query under exclusions: the shortcut set was
/// pruned against the full supply, so removing some of it keeps the closure.
pub fn exclusion_transfers(window: Option<Window>, excluded: bool) -> (choice: TransferChoice)
    ensures
        choice == if excluded {
            TransferChoice::Closure
        } else {
            time_choice(window)
        },
        choice == TransferChoice::Ultra <==> !excluded && whole_day(window),
        choice == TransferChoice::Closure <==> excluded || !whole_day(window),
{
    if excluded {
        TransferChoice::Closure
    } else {
        time_transfers(window)
    }
}

pub open spec fn emissions_choice(window: Option<Window>, same_factors: bool) -> TransferChoice {
    if whole_day(window) && same_factors {
        TransferChoice::McUltra
    } else {
        TransferChoice::Closure
    }
}

/// The transfers of an emissions query: the set built for its very factors,
/// else the closure.
pub fn emissions_transfers(window: Option<Window>, same_factors: bool) -> (choice: TransferChoice)
    ensures
        choice == emissions_choice(window, same_factors),
{
    if same_factors && ultra_active(window) {
        TransferChoice::McUltra
    } else {
        TransferChoice::Closure
    }
}

/// Whether any flag is set.
pub open spec fn any_flag(flags: Seq<bool>) -> bool {
    exists|i: int| 0 <= i < flags.len() && #[trigger] flags[i]
}

fn any_set(flags: &Vec<bool>) -> (any: bool)
    ensures
        any == any_flag(flags@),
{
    let mut index: usize = 0;
    while index < flags.len()
        invariant
            index <= flags@.len(),
            forall|i: int| 0 <= i < index ==> !(#[trigger] flags@[i]),
        decreases flags.len() - index,
    {
        if flags[index] {
            assert(flags@[index as int]);
            return true;
        }
        index += 1;
    }
    false
}

/// Whether a stop matrix routes door to door: not on the trip-based engine,
/// not under exclusions, under a whole-day set, and only where some origin
/// lies on the street network.
pub open spec fn door_to_door(
    router: Router,
    excluded: bool,
    window: Option<Window>,
    snapped: Seq<bool>,
) -> bool {
    router != Router::Tbtr && !excluded && whole_day(window) && any_flag(snapped)
}

/// Whether a stop matrix routes door to door; `snapped` holds, per origin,
/// whether its stop lies on the street network, nothing without one.
pub fn ultra_usable(router: Router, excluded: bool, window: Option<Window>, snapped: &Vec<bool>) -> (
    usable: bool)
    ensures
        usable == door_to_door(router, excluded, window, snapped@),
{
    router != Router::Tbtr && !excluded && ultra_active(window) && any_set(snapped)
}

/// How a stop matrix is routed.
#[derive(Debug, Clone, Copy, PartialEq, Eq, Structural)]
pub enum MatrixRoute {
    DoorToDoor,
    Boarding(Engine),
}

/// The route of a time matrix. `auto` prefers the door-to-door path over an
/// engine switch: it never trades semantics for speed.
pub open spec fn matrix_route(
    router: Router,
    usable: bool,
    cached: Option<Seq<char>>,
    date: Seq<char>,
    excluded: bool,
) -> Result<MatrixRoute, Seq<char>> {
    if usable {
        Ok(MatrixRoute::DoorToDoor)
    } else {
        match time_engine(router, cached, date, excluded) {
            Ok(engine) => Ok(MatrixRoute::Boarding(engine)),
            Err(text) => Err(text),
        }
    }
}

/// Resolves how a time matrix is routed.
pub fn resolve_matrix_route(
    router: Router,
    usable: bool,
    cached: Option<&str>,
    date: &str,
    excluded: bool,
) -> (route: Result<MatrixRoute, ValueError>)
    ensures
        match matrix_route(router, usable, date_of(cached), date@, excluded) {
            Ok(expected) => route == Ok::<MatrixRoute, ValueError>(expected),
            Err(text) => route matches Err(error) && error.message@ == text,
        },
{
    if usable {
        return Ok(MatrixRoute::DoorToDoor);
    }
    match resolve_time_router(router, cached, date, excluded) {
        Ok(engine) => Ok(MatrixRoute::Boarding(engine)),
        Err(error) => Err(error),
    }
}

/// A matrix goes door to door exactly where the set allows it, and then no
/// cached trip-based set draws it away; with the trip-based engine or under
/// exclusions it never does.
pub proof fn law_auto_keeps_door_to_door(
    router: Router,
    excluded: bool,
    window: Option<Window>,
    snapped: Seq<bool>,
    cached: Option<Seq<char>>,
    date: Seq<char>,
)
    ensures
        ({
            let usable = door_to_door(router, excluded, window, snapped);
            let route = matrix_route(router, usable, cached, date, excluded);
            &&& route == Ok::<MatrixRoute, Seq<char>>(MatrixRoute::DoorToDoor) <==> usable
            &&& router == Router::Tbtr || excluded ==> route != Ok::<MatrixRoute, Seq<char>>(
                MatrixRoute::DoorToDoor,
            )
        }),
{
}

/// Which candidates a least-cost matrix folds.
#[derive(Debug, Clone, Copy, PartialEq, Eq, Structural)]
pub enum Candidates {
    Time,
    Pareto,
}

/// The route of a least-cost matrix: pareto candidates go door to door
/// under a whole-day set for their factors and with a street network; they
/// resolve on the multicriteria cache otherwise, and time and fare
/// candidates on the cached time set.
pub open spec fn least_cost_route(
    candidates: Candidates,
    router: Router,
    emissions: TransferChoice,
    has_streets: bool,
    mc_cached: Option<Seq<char>>,
    same_factors: bool,
    cached: Option<Seq<char>>,
    date: Seq<char>,
) -> MatrixRoute {
    if candidates == Candidates::Pareto {
        if router != Router::Tbtr && emissions == TransferChoice::McUltra && has_streets {
            MatrixRoute::DoorToDoor
        } else {
            MatrixRoute::Boarding(mc_engine(router, mc_cached, same_factors, date, false))
        }
    } else {
        MatrixRoute::Boarding(time_engine(router, cached, date, false)->Ok_0)
    }
}

/// Resolves how a least-cost matrix is routed.
pub fn resolve_least_cost_route(
    candidates: Candidates,
    router: Router,
    emissions: TransferChoice,
    has_streets: bool,
    mc_cached: Option<&str>,
    same_factors: bool,
    cached: Option<&str>,
    date: &str,
) -> (route: MatrixRoute)
    ensures
        route == least_cost_route(
            candidates,
            router,
            emissions,
            has_streets,
            date_of(mc_cached),
            same_factors,
            date_of(cached),
            date@,
        ),
{
    if candidates == Candidates::Pareto {
        if router != Router::Tbtr && emissions == TransferChoice::McUltra && has_streets {
            return MatrixRoute::DoorToDoor;
        }
        return MatrixRoute::Boarding(
            resolve_mc_router(router, mc_cached, same_factors, date, false),
        );
    }
    let engine: Engine = match router {
        Router::Raptor => Engine::Raptor,
        Router::Tbtr => Engine::Tbtr,
        Router::Auto => if is_cached(cached, date) {
            Engine::Tbtr
        } else {
            Engine::Raptor
        },
    };
    MatrixRoute::Boarding(engine)
}

/// How a query between two stops is routed.
#[derive(Debug, Clone, Copy, PartialEq, Eq, Structural)]
pub enum PairRoute {
    /// An excluded end is unreachable, whatever lies near it.
    Unreachable,
    /// Door to door between the stops' coordinates.
    Coordinates,
    /// Reverse from the deadline, over the closure.
    Reverse,
    /// Boarding at the origin stop, over the closure.
    Boarding,
}

/// The route between two stops: `ends_excluded` says whether an end is
/// excluded, `excluded` whether anything is, `snapped` whether both ends lie
/// on the street network.
pub open spec fn pair_route(
    ends_excluded: bool,
    excluded: bool,
    arrive_by: bool,
    window: Option<Window>,
    snapped: bool,
) -> PairRoute {
    if ends_excluded {
        PairRoute::Unreachable
    } else if whole_day(window) && !excluded && !arrive_by && snapped {
        PairRoute::Coordinates
    } else if arrive_by {
        PairRoute::Reverse
    } else {
        PairRoute::Boarding
    }
}

/// Resolves how a query between two stops is routed.
pub fn resolve_pair_route(
    ends_excluded: bool,
    excluded: bool,
    arrive_by: bool,
    window: Option<Window>,
    snapped: bool,
) -> (route: PairRoute)
    ensures
        route == pair_route(ends_excluded, excluded, arrive_by, window, snapped),
{
    if ends_excluded {
        PairRoute::Unreachable
    } else if ultra_active(window) && !excluded && !arrive_by && snapped {
        PairRoute::Coordinates
    } else if arrive_by {
        PairRoute::Reverse
    } else {
        PairRoute::Boarding
    }
}

/// The transfers of a coordinate route: one choice for both routing and the
/// leg distances. Reverse runs and exclusions keep the closure.
pub fn coordinate_transfers(arrive_by: bool, excluded: bool, window: Option<Window>) -> (choice:
    TransferChoice)
    ensures
        choice == if arrive_by || excluded {
            TransferChoice::Closure
        } else {
            time_choice(window)
        },
        choice == TransferChoice::Ultra <==> !arrive_by && !excluded && whole_day(window),
        choice == TransferChoice::Closure <==> arrive_by || excluded || !whole_day(window),
{
    if arrive_by || excluded {
        TransferChoice::Closure
    } else {
        time_transfers(window)
    }
}

/// Whether a multicriteria query between two stops goes door to door: not on
/// the trip-based engine, with an emissions set for its factors, and with
/// both ends on the street network.
pub fn mc_by_coordinates(router: Router, emissions: TransferChoice, snapped: bool) -> (coordinates:
    bool)
    ensures
        coordinates == (router != Router::Tbtr && emissions == TransferChoice::McUltra
            && snapped),
{
    router != Router::Tbtr && emissions == TransferChoice::McUltra && snapped
}

/// A router is known by its own name alone.
pub proof fn law_routers_are_named(name: Seq<char>)
    ensures
        named_router(name) == Some(Router::Auto) <==> name == "auto"@,
        named_router(name) == Some(Router::Raptor) <==> name == "raptor"@,
        named_router(name) == Some(Router::Tbtr) <==> name == "tbtr"@,
{
    reveal_strlit("auto");
    reveal_strlit("raptor");
    reveal_strlit("tbtr");
    assert("raptor"@.len() == 6);
    assert("auto"@.len() == 4);
    assert("tbtr"@.len() == 4);
    assert("auto"@[0] == 'a');
    assert("tbtr"@[0] == 't');
}

/// A time query runs on trips where that is asked for, or where the choice is
/// free and the cached set is for its date, unless it needs rounds; it is
/// refused only where trips are asked for and it needs rounds. An emission
/// query runs on trips where asked, or where the choice is free, it needs no
/// rounds and the cached set is for its date and factors.
pub proof fn law_engines_follow_the_cache(
    router: Router,
    cached: Option<Seq<char>>,
    same_factors: bool,
    date: Seq<char>,
    needs_raptor: bool,
)
    ensures
        time_engine(router, cached, date, needs_raptor) is Err <==> router == Router::Tbtr
            && needs_raptor,
        time_engine(router, cached, date, needs_raptor) matches Ok(engine) ==> (engine
            == Engine::Tbtr <==> !needs_raptor && (router == Router::Tbtr || router == Router::Auto
            && cached == Some(date))),
        mc_engine(router, cached, same_factors, date, needs_raptor) == Engine::Tbtr <==> router
            == Router::Tbtr || router == Router::Auto && !needs_raptor && cached == Some(date)
            && same_factors,
{
}

/// A set covers the whole day exactly where its window starts with the day and
/// runs to the end of the clock; then it serves time queries, and emission
/// queries of its own factors too.
pub proof fn law_whole_days_are_served(window: Option<Window>, same_factors: bool)
    ensures
        window is None ==> !whole_day(window),
        window matches Some((lo, hi)) ==> (whole_day(window) <==> lo == 0 && hi >= 0xFFFF_FFFE),
        time_choice(window) == TransferChoice::Ultra <==> whole_day(window),
        time_choice(window) == TransferChoice::Closure <==> !whole_day(window),
        emissions_choice(window, same_factors) == TransferChoice::McUltra <==> whole_day(window)
            && same_factors,
        emissions_choice(window, same_factors) == TransferChoice::Closure <==> !(whole_day(window)
            && same_factors),
{
}

/// A stop matrix goes door to door exactly where trips are not asked for,
/// nothing is excluded, the set covers the day and some origin snapped.
pub proof fn law_door_to_door_needs_an_origin(
    router: Router,
    excluded: bool,
    window: Option<Window>,
    snapped: Seq<bool>,
    at: int,
)
    ensures
        router == Router::Tbtr || excluded || !whole_day(window) ==> !door_to_door(
            router,
            excluded,
            window,
            snapped,
        ),
        router != Router::Tbtr && !excluded && whole_day(window) && 0 <= at < snapped.len()
            && snapped[at] ==> door_to_door(router, excluded, window, snapped),
        (forall|i: int| 0 <= i < snapped.len() ==> !#[trigger] snapped[i]) ==> !door_to_door(
            router,
            excluded,
            window,
            snapped,
        ),
{
}

/// A least-cost matrix goes door to door exactly where its candidates are
/// pareto, trips are not asked for, the emission set serves and there are
/// streets; any other boards, pareto candidates on the emission cache's engine
/// and the rest on the time cache's.
pub proof fn law_least_cost_routes(
    candidates: Candidates,
    router: Router,
    emissions: TransferChoice,
    has_streets: bool,
    mc_cached: Option<Seq<char>>,
    same_factors: bool,
    cached: Option<Seq<char>>,
    date: Seq<char>,
)
    ensures
        ({
            let route = least_cost_route(
                candidates,
                router,
                emissions,
                has_streets,
                mc_cached,
                same_factors,
                cached,
                date,
            );
            let door = candidates == Candidates::Pareto && router != Router::Tbtr && emissions
                == TransferChoice::McUltra && has_streets;
            &&& route == MatrixRoute::DoorToDoor <==> door
            &&& !door && candidates == Candidates::Pareto ==> (route == MatrixRoute::Boarding(
                Engine::Tbtr,
            ) <==> router == Router::Tbtr || router == Router::Auto && mc_cached == Some(date)
                && same_factors)
            &&& candidates == Candidates::Time ==> (route == MatrixRoute::Boarding(Engine::Tbtr)
                <==> router == Router::Tbtr || router == Router::Auto && cached == Some(date))
        }),
{
}

/// An excluded end is unreachable whatever else is asked. Otherwise a pair goes
/// between coordinates exactly where it departs, both ends snapped, nothing is
/// excluded and the set covers the day; a deadline searches backwards, and the
/// rest boards.
pub proof fn law_pair_routes(
    ends_excluded: bool,
    excluded: bool,
    arrive_by: bool,
    window: Option<Window>,
    snapped: bool,
)
    ensures
        ({
            let route = pair_route(ends_excluded, excluded, arrive_by, window, snapped);
            &&& route == PairRoute::Unreachable <==> ends_excluded
            &&& route == PairRoute::Coordinates <==> !ends_excluded && !excluded && !arrive_by
                && snapped && whole_day(window)
            &&& route == PairRoute::Reverse <==> !ends_excluded && arrive_by
        }),
{
}

} // verus!
