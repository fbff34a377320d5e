use cafein::checks::{Binding, Installed};
use cafein::dispatch::{Engine, MatrixRoute, Router, TransferChoice};
use cafein::fares::{FareSpec, FareTables, ZoneProduct};
use cafein::ids::{FeedId, Refusal, StopIndex, TripIndex};
use cafein::installs::{known_trips, set_trip_distances};
use cafein::links::{QueryPoint, WalkedStop};
use cafein::one_to_all::{
    coordinate_times_request, policy_time_matrix, stop_times_request, CoordinateTimesQuery,
    StopTimesQuery, TimesRoute,
};
use cafein::options::DistanceProvenance;
use cafein::plans::{NetworkFacts, WalkOptions};
use cafein::queries::{
    carriage_request, fare_frontier_request, fare_points_request, frontier_points_request,
    frontier_request, mc_cache_request, oracle_request, percentile_request, point_time_request,
    policy_matrix_request, policy_route_request, policy_times_request, reverse_points_request,
    reverse_request, shortcut_request, time_matrix_request, time_matrix_route, CarriageQuery,
    FareFrontierQuery, FrontierQuery, Percentiles, PointTimeQuery, PolicyQuery, ShortcutOptions,
};

const DATE: &str = "2024-03-01";

fn bits(value: f64) -> u64 {
    value.to_bits()
}

fn stops() -> StopIndex {
    let ids = ["a", "b"];
    StopIndex::new(&ids.iter().map(|id| FeedId { feed: 0, id: id.to_string() }).collect(), 1)
}

fn trips() -> TripIndex {
    TripIndex::new(&vec![FeedId { feed: 0, id: "t".to_string() }], 1)
}

fn facts<'a>(stops: &'a StopIndex, trips: &'a TripIndex) -> NetworkFacts<'a> {
    NetworkFacts {
        stops,
        trips,
        stop_count: 2,
        trip_count: 1,
        route_count: 1,
        installed: Installed { distances: true, leg_geometries: false },
        has_streets: true,
        ultra: Some((0, u32::MAX - 1)),
        mcultra: None,
        time_date: Some(DATE),
        mc_date: None,
    }
}

fn walk() -> WalkOptions {
    WalkOptions { speed_kmph: bits(3.6), max_time: bits(7200.0), max_snap: bits(1600.0) }
}

fn standing() -> WalkOptions {
    WalkOptions { speed_kmph: bits(0.0), ..walk() }
}

fn ids(names: &[&str]) -> Vec<String> {
    names.iter().map(|name| name.to_string()).collect()
}

fn offsets(rows: &[(&str, u32)]) -> Vec<(String, u32)> {
    rows.iter().map(|&(stop, seconds)| (stop.to_string(), seconds)).collect()
}

fn value(refusal: Refusal) -> String {
    match refusal {
        Refusal::Value(error) => error.message,
        Refusal::Key(_) => panic!("a value is refused"),
    }
}

fn key(refusal: Refusal) -> String {
    match refusal {
        Refusal::Key(error) => error.message,
        Refusal::Value(_) => panic!("a key is refused"),
    }
}

fn no_fares() -> FareSpec {
    FareSpec {
        stop_zone: None,
        products: None,
        route_type: None,
        route_fare: None,
        unlimited_transfers: None,
        allow_same_route: None,
        pair_fare: None,
        max_discounted_transfers: None,
        transfer_allowance: None,
        fare_cap: None,
    }
}

fn zone_fares() -> FareSpec {
    let product =
        ZoneProduct { price: bits(2.0), zones: 3, duration: bits(5400.0), transfers: u32::MAX };
    FareSpec { stop_zone: Some(vec![0, 1]), products: Some(vec![product]), ..no_fares() }
}

fn place(linked: bool) -> QueryPoint {
    let links = vec![WalkedStop { stop: 1, seconds: 30, meters: bits(9.0) }];
    QueryPoint {
        lat: bits(60.5),
        lon: bits(25.0),
        links: if linked { Some(links) } else { None },
        lat_text: "60.5".to_string(),
        lon_text: "25".to_string(),
    }
}

#[test]
fn times_from_a_stop_board_or_walk() {
    let (stops, trips) = (stops(), trips());
    let facts = facts(&stops, &trips);
    let here = place(true);
    let query = StopTimesQuery {
        from_stop: "b",
        date: DATE,
        departure: "08:00:00",
        excluded: false,
        arrive_by: false,
        place: Some(&here),
        walk: walk(),
        max_snap: "1600",
    };
    let request = stop_times_request(&query, &facts).unwrap();
    assert_eq!((request.route, request.offsets), (TimesRoute::DoorToDoor, vec![(1, 30)]));
    assert_eq!(request.moment.departure, 28_800);
    // Exclusions, a stop off the streets, a part-day set or no streets keep
    // the closure, where the walking speed does not count.
    let routed = |query: StopTimesQuery, facts: &NetworkFacts| {
        let request = stop_times_request(&query, facts).unwrap();
        (request.route, request.offsets)
    };
    let boarded = (TimesRoute::Closure, vec![(1, 0)]);
    let still = StopTimesQuery { walk: standing(), ..query };
    assert_eq!(routed(StopTimesQuery { excluded: true, ..still }, &facts), boarded);
    assert_eq!(routed(StopTimesQuery { place: None, ..still }, &facts), boarded);
    assert_eq!(routed(still, &NetworkFacts { ultra: Some((0, 90_000)), ..facts }), boarded);
    assert_eq!(routed(still, &NetworkFacts { has_streets: false, ..facts }), boarded);
    // A deadline never claims the shortcuts.
    let by = StopTimesQuery { arrive_by: true, ..still };
    assert_eq!(routed(by, &facts), (TimesRoute::Reverse, vec![(1, 0)]));
    let refused = |query: StopTimesQuery| stop_times_request(&query, &facts).err().unwrap();
    let bad = StopTimesQuery { from_stop: "x", departure: "8", date: "x", ..still };
    assert_eq!(key(refused(bad)), "unknown stop_id 'x'");
    let bad = StopTimesQuery { from_stop: "a", ..bad };
    assert_eq!(value(refused(bad)), "invalid time '8': expected HH:MM:SS");
    let bad = StopTimesQuery { departure: "08:00:00", ..bad };
    assert!(value(refused(bad)).contains("speed"));
    let bad = StopTimesQuery { walk: walk(), ..bad };
    assert!(value(refused(bad)).contains("date"));
    let far = place(false);
    let bad = StopTimesQuery { place: Some(&far), ..bad };
    let expected = "origin (60.5, 25) is farther than 1600 m from the walking network";
    assert_eq!(value(refused(bad)), expected);
}

#[test]
fn times_from_a_coordinate_need_streets() {
    let (stops, trips) = (stops(), trips());
    let facts = facts(&stops, &trips);
    let (here, far) = (place(true), place(false));
    let query = CoordinateTimesQuery {
        place: &here,
        date: DATE,
        departure: "08:00:00",
        excluded: false,
        arrive_by: false,
        walk: walk(),
        max_snap: "1600",
    };
    let routed = |query: CoordinateTimesQuery, facts: &NetworkFacts| {
        let request = coordinate_times_request(&query, facts).unwrap();
        assert_eq!(request.offsets, vec![(1, 30)]);
        request.route
    };
    assert_eq!(routed(query, &facts), TimesRoute::DoorToDoor);
    assert_eq!(
        routed(CoordinateTimesQuery { excluded: true, ..query }, &facts),
        TimesRoute::Closure
    );
    assert_eq!(
        routed(CoordinateTimesQuery { arrive_by: true, ..query }, &facts),
        TimesRoute::Reverse
    );
    assert_eq!(routed(query, &NetworkFacts { ultra: None, ..facts }), TimesRoute::Closure);
    let refused =
        |query: CoordinateTimesQuery| value(coordinate_times_request(&query, &facts).err().unwrap());
    let bad = CoordinateTimesQuery { place: &far, departure: "8", walk: standing(), ..query };
    assert!(refused(bad).contains("speed"));
    let bad = CoordinateTimesQuery { walk: walk(), ..bad };
    assert!(refused(bad).starts_with("origin (60.5, 25) is farther"));
    let bad = CoordinateTimesQuery { place: &here, ..bad };
    assert_eq!(refused(bad), "invalid time '8': expected HH:MM:SS");
    let bare = NetworkFacts { has_streets: false, ..facts };
    let refusal = coordinate_times_request(&bad, &bare).err().unwrap();
    assert_eq!(
        value(refusal),
        "no street network installed; build the network with an OSM extract"
    );
}

#[test]
fn policy_matrices_fold_their_egress() {
    let rows = vec![vec![Some(110), Some(150), None], vec![None, None, Some(u32::MAX - 2)]];
    let egress = vec![vec![(0, 60), (1, 5), (2, 0)], vec![(2, 2)], vec![]];
    assert_eq!(
        policy_time_matrix(&rows, &egress, 100),
        vec![vec![Some(55), None, None], vec![Some(u32::MAX - 102), None, None]]
    );
    assert!(policy_time_matrix(&vec![], &egress, 100).is_empty());
}

#[test]
fn time_matrices_resolve_and_route() {
    let (stops, trips) = (stops(), trips());
    let facts = facts(&stops, &trips);
    let request =
        time_matrix_request("auto", &ids(&["b", "a"]), DATE, "08:00:00", &facts).unwrap();
    assert_eq!((request.router, request.origins.clone()), (Router::Auto, vec![1, 0]));
    assert_eq!(request.moment.departure, 28_800);
    let refusal = time_matrix_request("x", &ids(&["y"]), DATE, "z", &facts).err().unwrap();
    assert!(value(refusal).starts_with("router must be"));
    let refusal = time_matrix_request("auto", &ids(&["y"]), DATE, "z", &facts).err().unwrap();
    assert_eq!(key(refusal), "unknown stop_id 'y'");
    // A snapped origin goes door to door, and only then does the walking speed
    // count; exclusions board, on the round-based engine.
    let route = |excluded, snapped: bool, walk| {
        time_matrix_route(&request, DATE, excluded, &vec![false, snapped], walk, &facts)
    };
    assert_eq!(route(false, true, walk()).unwrap(), MatrixRoute::DoorToDoor);
    assert!(route(false, true, standing()).is_err());
    assert_eq!(route(false, false, standing()).unwrap(), MatrixRoute::Boarding(Engine::Tbtr));
    assert_eq!(route(true, true, standing()).unwrap(), MatrixRoute::Boarding(Engine::Raptor));
    let explicit = time_matrix_request("tbtr", &ids(&["a"]), DATE, "08:00:00", &facts).unwrap();
    let refused = time_matrix_route(&explicit, DATE, true, &vec![true], walk(), &facts);
    assert_eq!(
        refused.unwrap_err().message,
        "route/trip/stop exclusions require router='raptor'"
    );
}

#[test]
fn percentiles_are_checked_before_the_router() {
    let (stops, trips) = (stops(), trips());
    let facts = facts(&stops, &trips);
    let (none, half) = (vec![], vec![bits(50.0)]);
    let empty = Percentiles { window: 60, ranks: &none };
    let median = Percentiles { window: 60, ranks: &half };
    let from = ids(&["a"]);
    let refusal =
        percentile_request(&empty, "x", false, &from, DATE, "08:00:00", &facts).err().unwrap();
    assert_eq!(value(refusal), "percentiles must not be empty");
    let refusal =
        percentile_request(&median, "x", false, &from, DATE, "08:00:00", &facts).err().unwrap();
    assert!(value(refusal).starts_with("router must be"));
    let request =
        percentile_request(&median, "auto", false, &from, DATE, "08:00:00", &facts).unwrap();
    assert_eq!((request.engine, request.origins), (Engine::Tbtr, vec![0]));
    let request =
        percentile_request(&median, "auto", true, &from, DATE, "08:00:00", &facts).unwrap();
    assert_eq!(request.engine, Engine::Raptor);
}

#[test]
fn point_times_relax_shortcuts_without_exclusions() {
    let (stops, trips) = (stops(), trips());
    let known = facts(&stops, &trips);
    let points = vec![(bits(60.0), bits(25.0))];
    let bad = vec![(bits(60.0), bits(25.0)), (bits(f64::NAN), bits(0.0))];
    let query = PointTimeQuery {
        origins: &points,
        destinations: &points,
        date: DATE,
        departure: "08:00:00",
        router: "auto",
        excluded: false,
        walk: walk(),
    };
    let request = point_time_request(&query, None, &known).unwrap();
    assert_eq!((request.engine, request.transfers), (Engine::Tbtr, TransferChoice::Ultra));
    let excluded = PointTimeQuery { excluded: true, ..query };
    let request = point_time_request(&excluded, None, &known).unwrap();
    assert_eq!((request.engine, request.transfers), (Engine::Raptor, TransferChoice::Closure));
    let off = PointTimeQuery { destinations: &bad, walk: standing(), ..excluded };
    let none = vec![];
    let windowed = point_time_request(&off, Some(Percentiles { window: 0, ranks: &none }), &known);
    assert_eq!(value(windowed.err().unwrap()), "window must be at least 1 second");
    let refusal = point_time_request(&off, None, &known).err().unwrap();
    assert!(value(refusal).starts_with("walking_speed_kmph"));
    let streetless = NetworkFacts { has_streets: false, ..known };
    let refusal = point_time_request(&off, None, &streetless).err().unwrap();
    assert!(value(refusal).starts_with("no street network installed"));
}

#[test]
fn reverse_requests_depart_at_their_deadline() {
    let (stops, trips) = (stops(), trips());
    let facts = facts(&stops, &trips);
    let request = reverse_request(&ids(&["a"]), &ids(&["b", "a"]), DATE, "09:00:00", &facts);
    let request = request.unwrap();
    assert_eq!((request.origins, request.destinations), (vec![0], vec![1, 0]));
    assert_eq!(request.moment.departure, 32_400);
    let refusal = reverse_request(&ids(&["a"]), &ids(&["y"]), DATE, "9", &facts).err().unwrap();
    assert_eq!(key(refusal), "unknown stop_id 'y'");
    let points = vec![(bits(60.0), bits(25.0))];
    let at = reverse_points_request(&points, &points, DATE, "09:00:00", walk(), &facts).unwrap();
    assert_eq!(at.departure, 32_400);
    let refusal = reverse_points_request(&points, &points, DATE, "9", standing(), &facts);
    assert!(value(refusal.err().unwrap()).starts_with("walking_speed_kmph"));
}

#[test]
fn fare_frontiers_take_their_own_structure() {
    let (stops, trips) = (stops(), trips());
    let facts = facts(&stops, &trips);
    let cutoffs = vec![bits(0.0), bits(2.0)];
    let query = FareFrontierQuery {
        date: DATE,
        departure: "08:00:00",
        window: 600,
        departure_step: Some(60),
        cutoffs: &cutoffs,
    };
    let (from, to) = (ids(&["a"]), ids(&["b"]));
    let request =
        fare_frontier_request(&query, zone_fares(), true, &from, &to, &facts).unwrap();
    assert!(matches!(request.tables, FareTables::Zone(_)));
    assert_eq!((request.origins, request.destinations), (vec![0], vec![1]));
    let refusal = fare_frontier_request(&query, zone_fares(), false, &from, &to, &facts);
    assert!(value(refusal.err().unwrap()).starts_with("the fare frontier prices rule-based"));
    let still = FareFrontierQuery { window: 0, ..query };
    let refusal = fare_frontier_request(&still, no_fares(), true, &from, &to, &facts);
    assert_eq!(
        value(refusal.err().unwrap()),
        "window must be a positive number of seconds"
    );
    // The clock is held against the window before the date is read.
    let late = FareFrontierQuery { window: u32::MAX, departure_step: None, date: "x", ..still };
    let points = vec![(bits(60.0), bits(25.0))];
    let refusal = fare_points_request(&late, zone_fares(), true, &points, &points, walk(), &facts);
    assert_eq!(
        value(refusal.err().unwrap()),
        "departure + window overflows the router clock; narrow the window"
    );
    let (tables, at) =
        fare_points_request(&query_of(&cutoffs), zone_fares(), true, &points, &points, walk(), &facts)
            .unwrap();
    assert!(matches!(tables, FareTables::Zone(_)));
    assert_eq!(at.departure, 28_800);
}

fn query_of(cutoffs: &Vec<u64>) -> FareFrontierQuery<'_> {
    FareFrontierQuery {
        date: DATE,
        departure: "08:00:00",
        window: 600,
        departure_step: None,
        cutoffs,
    }
}

#[test]
fn emission_frontiers_spread_their_factors() {
    let (stops, trips) = (stops(), trips());
    let facts = facts(&stops, &trips);
    let factors = vec![("t".to_string(), bits(50.0)), ("gone".to_string(), bits(1.0))];
    let query = FrontierQuery {
        bucket: bits(25.0),
        router: "raptor",
        window: 600,
        geometries: false,
        factors: &factors,
        date: DATE,
        departure: "08:00:00",
    };
    let request = frontier_request(&query, &ids(&["a"]), &ids(&["b"]), &facts).unwrap();
    assert_eq!((request.router, request.per_trip), (Router::Raptor, vec![bits(50.0)]));
    let free = FrontierQuery { bucket: bits(0.0), ..query };
    let refusal = frontier_request(&free, &ids(&["y"]), &ids(&["b"]), &facts).err().unwrap();
    assert_eq!(value(refusal), "bucket must be a positive number of grams");
    let points = vec![(bits(60.0), bits(25.0))];
    let drawn = FrontierQuery { bucket: bits(25.0), geometries: true, ..free };
    let refusal = frontier_points_request(&drawn, &points, &points, walk(), &facts);
    assert!(value(refusal.err().unwrap()).starts_with("no leg geometries installed"));
    let plain = FrontierQuery { geometries: false, ..drawn };
    let request = frontier_points_request(&plain, &points, &points, walk(), &facts).unwrap();
    assert_eq!(request.per_trip, vec![bits(50.0)]);
    let request = oracle_request("b", "a", DATE, "08:00:00", &factors, &facts).unwrap();
    assert_eq!((request.origin, request.destination), (1, 0));
    let bare = NetworkFacts {
        installed: Installed { distances: false, leg_geometries: false },
        ..facts
    };
    let refusal = oracle_request("y", "a", DATE, "08:00:00", &factors, &bare).err().unwrap();
    assert!(value(refusal).starts_with("no trip distances installed"));
}

#[test]
fn shortcuts_ask_for_distances_only_with_factors() {
    let (stops, trips) = (stops(), trips());
    let known = facts(&stops, &trips);
    let factors = vec![("t".to_string(), bits(50.0))];
    let options = ShortcutOptions {
        speed_kmph: bits(3.6),
        max_transfer_time: bits(1800.0),
        min_departure: 0,
        max_departure: u32::MAX - 1,
    };
    assert_eq!(shortcut_request(options, None, &known).unwrap(), None);
    let spread = shortcut_request(options, Some(&factors), &known).unwrap();
    assert_eq!(spread, Some(vec![bits(50.0)]));
    let (days, per_trip) = mc_cache_request(DATE, &factors, &known).unwrap();
    assert_eq!((days.1, per_trip), (days.0 - 1, vec![bits(50.0)]));
    let bare = NetworkFacts {
        installed: Installed { distances: false, leg_geometries: false },
        ..known
    };
    assert!(shortcut_request(options, None, &bare).is_ok());
    let refusal = shortcut_request(options, Some(&factors), &bare).err().unwrap();
    assert!(value(refusal).starts_with("no trip distances installed"));
    let refusal = mc_cache_request("x", &factors, &bare).err().unwrap();
    assert!(value(refusal).starts_with("no trip distances installed"));
    let inverted = ShortcutOptions { min_departure: 2, max_departure: 1, ..options };
    let refusal = shortcut_request(inverted, Some(&factors), &bare).err().unwrap();
    assert_eq!(value(refusal), "min_departure must not exceed max_departure");
}

#[test]
fn policies_relax_the_set_they_want() {
    let (stops, trips) = (stops(), trips());
    let facts = facts(&stops, &trips);
    let bike = Binding { mode: "bicycle".to_string(), budget: bits(600.0), budget_text: "600".to_string() };
    let short = Binding { mode: "bicycle".to_string(), budget: bits(60.0), budget_text: "60".to_string() };
    let query = PolicyQuery {
        date: DATE,
        departure: "08:00:00",
        wanted: Some(&bike),
        hides_stops: true,
        excludes_stops: false,
        excluded: false,
    };
    let access = vec![offsets(&[("a", 30)]), offsets(&[])];
    let egress = vec![offsets(&[("b", 5), ("a", 7)])];
    let request =
        policy_matrix_request(&query, "auto", &access, &egress, Some(&bike), &facts).unwrap();
    assert_eq!(request.access, vec![vec![(0, 30)], vec![]]);
    assert_eq!(request.egress, vec![vec![(1, 5), (0, 7)]]);
    assert!(request.bound);
    assert_eq!(request.engine, Engine::Tbtr);
    let refusal = policy_matrix_request(&query, "auto", &access, &egress, Some(&short), &facts);
    assert!(value(refusal.err().unwrap()).contains("is bound to ('bicycle', 60 s)"));
    let unknown = vec![offsets(&[("y", 1)])];
    let refusal = policy_matrix_request(&query, "auto", &access, &unknown, None, &facts);
    assert_eq!(key(refusal.err().unwrap()), "unknown stop_id 'y'");
    let hidden = PolicyQuery { excludes_stops: true, excluded: true, ..query };
    let refusal = policy_times_request(&hidden, "auto", &access[0], Some(&bike), &facts);
    assert!(value(refusal.err().unwrap()).starts_with("stop exclusions do not combine"));
    let free = PolicyQuery { wanted: None, hides_stops: false, ..hidden };
    let request = policy_times_request(&free, "auto", &access[0], Some(&bike), &facts).unwrap();
    assert_eq!((request.engine, request.bound), (Engine::Raptor, false));
    // A route reads its clock first, its stops before its date.
    let undated = PolicyQuery { date: "x", ..free };
    let refusal = policy_route_request(&undated, &access[0], &unknown[0], None, &facts);
    assert_eq!(key(refusal.err().unwrap()), "unknown stop_id 'y'");
    let refusal = policy_route_request(&undated, &access[0], &egress[0], None, &facts);
    assert!(value(refusal.err().unwrap()).starts_with("invalid date 'x'"));
}

#[test]
fn carriage_queries_resolve_both_planes() {
    let (stops, trips) = (stops(), trips());
    let facts = facts(&stops, &trips);
    let (carrying, free) = (offsets(&[("a", 30)]), offsets(&[("b", 40)]));
    let none = offsets(&[]);
    let parks = ids(&["b"]);
    let query = CarriageQuery {
        carrying_access: &carrying,
        free_access: &free,
        carrying_egress: &none,
        free_egress: &free,
        date: DATE,
        departure: "08:00:00",
        unknown_rule: "allow",
        park_stops: Some(&parks),
        wanted: None,
    };
    let bikes = vec![None, Some(false)];
    let request = carriage_request(&query, &bikes, None, &facts).unwrap();
    assert_eq!(request.carrying_access, vec![(0, 30)]);
    assert_eq!((request.carrying_egress, request.free_egress), (vec![], vec![(1, 40)]));
    assert_eq!(request.carrying, vec![true, false]);
    assert_eq!((request.park_stops, request.bound), (Some(vec![1]), false));
    let strict = CarriageQuery { unknown_rule: "maybe", ..query };
    let refusal = carriage_request(&strict, &bikes, None, &facts).err().unwrap();
    assert!(value(refusal).starts_with("unknown_bike_trips must be"));
    let bike = Binding { mode: "bicycle".to_string(), budget: bits(600.0), budget_text: "600".to_string() };
    let bound = CarriageQuery { wanted: Some(&bike), ..strict };
    let refusal = carriage_request(&bound, &bikes, None, &facts).err().unwrap();
    assert!(value(refusal).contains("needs the carriage set"));
}

#[test]
fn distance_rows_of_unknown_trips_are_ignored() {
    let trips = trips();
    let row = |trip: &str, tier: &str| (trip.to_string(), tier.to_string());
    let entries =
        set_trip_distances(&trips, &vec![row("gone", "guess"), row("t", "crow_fly")]).unwrap();
    assert_eq!(entries, vec![(1, 0, DistanceProvenance::CrowFly)]);
    let error = set_trip_distances(&trips, &vec![row("t", "guess")]).unwrap_err();
    assert_eq!(error.message, "unknown distance provenance 'guess'");
    assert_eq!(known_trips(&trips, &ids(&["gone", "t", "t"])), vec![(1, 0), (2, 0)]);
}
