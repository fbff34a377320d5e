use cafein::checks::{Installed, RouteOptions};
use cafein::costs::{CostRow, Objective, ZERO};
use cafein::dispatch::{Candidates, Engine, MatrixRoute, Router, TransferChoice};
use cafein::ids::{FeedId, Refusal, StopIndex, TripIndex};
use cafein::links::{coordinate_links, QueryPoint, WalkedStop};
use cafein::plans::{
    coordinate_request, least_cost_matrix_route, least_cost_rows, mc_coordinate_request,
    mc_coordinate_route, mc_stop_request, mc_stop_route, moment, point_matrix_request,
    stop_matrix_request, travel_cost_route, LeastCost, McStopRoute, NetworkFacts,
    PointMatrixQuery, StopMatrixQuery, WalkOptions,
};

fn bits(value: f64) -> u64 {
    value.to_bits()
}

fn stops() -> StopIndex {
    let ids = ["a", "b"];
    StopIndex::new(&ids.iter().map(|id| FeedId { feed: 0, id: id.to_string() }).collect(), 1)
}

fn trips() -> TripIndex {
    TripIndex::new(&vec![FeedId { feed: 0, id: "t".to_string() }], 1)
}

fn facts<'a>(stops: &'a StopIndex, trips: &'a TripIndex) -> NetworkFacts<'a> {
    NetworkFacts {
        stops,
        trips,
        stop_count: 2,
        trip_count: 1,
        route_count: 1,
        installed: Installed { distances: true, leg_geometries: false },
        has_streets: true,
        ultra: Some((0, u32::MAX - 1)),
        mcultra: Some((0, u32::MAX - 1)),
        time_date: Some("2024-03-01"),
        mc_date: Some("2024-03-01"),
    }
}

fn walk() -> WalkOptions {
    WalkOptions { speed_kmph: bits(3.6), max_time: bits(7200.0), max_snap: bits(1600.0) }
}

fn message(refusal: Refusal) -> String {
    match refusal {
        Refusal::Value(error) => error.message,
        Refusal::Key(error) => error.message,
    }
}

#[test]
fn moments_read_the_clock_first() {
    let at = moment("2024-03-01", "08:00:00").unwrap();
    assert_eq!(at.departure, 28_800);
    assert_eq!(at.previous_day, at.day - 1);
    assert_eq!(
        moment("never", "8").unwrap_err().message,
        "invalid time '8': expected HH:MM:SS"
    );
    assert!(moment("never", "8:0:0").unwrap_err().message.starts_with("invalid date 'never': "));
}

#[test]
fn stop_matrices_are_refused_in_order() {
    let (stops, trips) = (stops(), trips());
    let facts = facts(&stops, &trips);
    let from = vec!["b".to_string()];
    let unknown = vec!["x".to_string()];
    let factors = vec![("t".to_string(), bits(50.0))];
    let query = StopMatrixQuery {
        from_stops: &from,
        to_stops: None,
        date: "2024-03-01",
        departure: "08:00:00",
        factors: &factors,
        router: "auto",
        geometries: false,
    };
    let request = stop_matrix_request(&query, None, None, &facts).unwrap();
    assert_eq!(request.router, Router::Auto);
    assert_eq!((request.origins, request.destinations), (vec![1], vec![0, 1]));
    assert_eq!(request.per_trip, vec![bits(50.0)]);
    assert!(request.tables.is_none() && request.least.is_none());
    // The router decides before the stops, the stops before the clock.
    let all_wrong = StopMatrixQuery { from_stops: &unknown, departure: "x", router: "x", ..query };
    let refusal = stop_matrix_request(&all_wrong, None, None, &facts).err().unwrap();
    assert!(message(refusal).starts_with("router must be"));
    let two_wrong = StopMatrixQuery { router: "auto", ..all_wrong };
    match stop_matrix_request(&two_wrong, None, None, &facts) {
        Err(Refusal::Key(error)) => assert_eq!(error.message, "unknown stop_id 'x'"),
        _ => panic!("an unknown stop"),
    }
    let drawn = StopMatrixQuery { from_stops: &from, departure: "8:0:0", geometries: true, ..two_wrong };
    let refusal = stop_matrix_request(&drawn, None, None, &facts).err().unwrap();
    assert!(message(refusal).starts_with("no leg geometries installed"));
}

#[test]
fn least_cost_matrices_choose_their_route() {
    let (stops, trips) = (stops(), trips());
    let facts = facts(&stops, &trips);
    let from = vec!["a".to_string()];
    let factors = vec![];
    let query = StopMatrixQuery {
        from_stops: &from,
        to_stops: Some(&from),
        date: "2024-03-01",
        departure: "08:00:00",
        factors: &factors,
        router: "auto",
        geometries: false,
    };
    let least = |candidates, objective| {
        Some(LeastCost { window: 60, objective, candidates, bucket: bits(25.0) })
    };
    let request = stop_matrix_request(&query, least("pareto", "emissions"), None, &facts).unwrap();
    assert_eq!(request.least, Some((Candidates::Pareto, Objective::Emissions)));
    assert_eq!(
        least_cost_matrix_route(&request, "2024-03-01", true, true, walk(), &facts).unwrap(),
        (MatrixRoute::DoorToDoor, TransferChoice::McUltra)
    );
    assert_eq!(
        least_cost_matrix_route(&request, "2024-03-01", false, true, walk(), &facts).unwrap(),
        (MatrixRoute::Boarding(Engine::Tbtr), TransferChoice::Closure)
    );
    let still = WalkOptions { speed_kmph: 0, ..walk() };
    assert!(least_cost_matrix_route(&request, "2024-03-01", true, true, still, &facts).is_err());
    assert!(least_cost_matrix_route(&request, "2024-03-01", false, true, still, &facts).is_ok());
    let unpriced = stop_matrix_request(&query, least("time", "fare"), None, &facts).err().unwrap();
    assert_eq!(message(unpriced), "the 'fare' objective requires fare tables");
    let empty = Some(LeastCost { window: 0, objective: "emissions", candidates: "time", bucket: 0 });
    let refusal = stop_matrix_request(&query, empty, None, &facts).err().unwrap();
    assert_eq!(message(refusal), "window must be a positive number of seconds");
    let fastest = stop_matrix_request(&query, None, None, &facts).unwrap();
    assert_eq!(
        travel_cost_route(&fastest, "2024-03-01", &vec![true], walk(), &facts).unwrap(),
        MatrixRoute::DoorToDoor
    );
    assert_eq!(
        travel_cost_route(&fastest, "2024-03-01", &vec![false], still, &facts).unwrap(),
        MatrixRoute::Boarding(Engine::Tbtr)
    );
}

fn row(to: u32, seconds: u32, grams: f64) -> CostRow {
    CostRow {
        to,
        seconds,
        rides: 1,
        transit_meters: ZERO,
        walk_meters: ZERO,
        emission_grams: bits(grams),
        fare: ZERO,
        geometry: None,
    }
}

#[test]
fn located_origins_keep_their_walks() {
    let door = vec![vec![row(5, 60, 9.0)], vec![row(5, 61, 9.0)]];
    let closure = vec![vec![row(5, 90, 9.0)], vec![row(5, 91, 9.0)]];
    let walks = vec![vec![(0, 70, 3)], vec![(0, 70, 3)]];
    let rows = least_cost_rows(door, closure, &vec![true, false], &walks, &vec![5], None, true);
    // The walk is cleaner than the ride; the origin off the streets keeps
    // what it boards.
    assert_eq!((rows[0][0].seconds, rows[0][0].rides), (70, 0));
    assert_eq!((rows[1][0].seconds, rows[1][0].rides), (91, 1));
}

#[test]
fn point_matrices_need_streets_and_finite_points() {
    let (stops, trips) = (stops(), trips());
    let base = facts(&stops, &trips);
    let origins = vec![(bits(60.0), bits(25.0))];
    let wrong = vec![(bits(60.0), bits(f64::NAN))];
    let factors = vec![];
    let query = PointMatrixQuery {
        origins: &origins,
        destinations: &origins,
        date: "2024-03-02",
        departure: "08:00:00",
        factors: &factors,
        router: "auto",
        walk: walk(),
        geometries: false,
    };
    let request = point_matrix_request(&query, None, None, &base).unwrap();
    assert_eq!((request.engine, request.transfers), (Engine::Raptor, TransferChoice::Ultra));
    let least = Some(LeastCost { window: 60, objective: "emissions", candidates: "time", bucket: 0 });
    let request = point_matrix_request(&query, least, None, &base).unwrap();
    assert_eq!(request.transfers, TransferChoice::Closure);
    assert_eq!(request.objective, Some(Objective::Emissions));
    let bad = PointMatrixQuery { destinations: &wrong, ..query };
    let refusal = point_matrix_request(&bad, None, None, &base).err().unwrap();
    assert_eq!(message(refusal), "point 0 has non-finite coordinates");
    let unbuilt = NetworkFacts { has_streets: false, ..facts(&stops, &trips) };
    let refusal = point_matrix_request(&bad, None, None, &unbuilt).err().unwrap();
    assert!(message(refusal).starts_with("no street network installed"));
}

fn point(lat: f64, linked: bool) -> QueryPoint {
    QueryPoint {
        lat: bits(lat),
        lon: bits(25.0),
        links: if linked { Some(vec![WalkedStop { stop: 1, seconds: 30, meters: 9 }]) } else { None },
        lat_text: "60.5".to_string(),
        lon_text: "25".to_string(),
    }
}

#[test]
fn coordinates_lie_on_the_walking_network() {
    let near = point(60.5, true);
    let far = point(60.5, false);
    assert_eq!(coordinate_links("", &near, "1600").unwrap().len(), 1);
    assert_eq!(
        coordinate_links("origin ", &far, "1600").unwrap_err().message,
        "origin (60.5, 25) is farther than 1600 m from the walking network"
    );
    let request =
        coordinate_request(&near, &near, "2024-03-01", "8:0:0", walk(), "1600", true).unwrap();
    assert_eq!(request.access, vec![(1, 30)]);
    let error = coordinate_request(&near, &far, "x", "y", walk(), "1600", true).err().unwrap();
    assert_eq!(
        error.message,
        "destination (60.5, 25) is farther than 1600 m from the walking network"
    );
    let error =
        coordinate_request(&point(f64::NAN, true), &far, "x", "y", walk(), "1600", true).err().unwrap();
    assert_eq!(error.message, "origin lat and lon must be finite");
}

#[test]
fn multicriteria_routes_go_by_coordinates_where_they_can() {
    let (stops, trips) = (stops(), trips());
    let facts = facts(&stops, &trips);
    let options = RouteOptions {
        bucket: bits(25.0),
        slack: ZERO,
        max_options: None,
        diverse: false,
        banded: false,
    };
    let request = mc_stop_request(options, "auto", "a", "b", &vec![], &facts).unwrap();
    assert_eq!((request.origin, request.destination), (0, 1));
    let route = |snapped, same| {
        mc_stop_route(&request, options, "2024-03-01", "8:0:0", snapped, same, true, &facts).unwrap()
    };
    assert_eq!(route(true, true), McStopRoute::Coordinates);
    match route(false, true) {
        McStopRoute::Boarding { engine, moment } => {
            assert_eq!((engine, moment.departure), (Engine::Tbtr, 28_800));
        }
        McStopRoute::Coordinates => panic!("an end off the streets"),
    }
    let slack = RouteOptions { slack: bits(60.0), ..options };
    let relaxed = mc_stop_route(&request, slack, "2024-03-01", "8:0:0", false, true, true, &facts);
    assert!(matches!(relaxed, Ok(McStopRoute::Boarding { engine: Engine::Raptor, .. })));
    let refusal = mc_stop_request(options, "auto", "a", "x", &vec![], &facts).err().unwrap();
    assert_eq!(message(refusal), "unknown stop_id 'x'");
    let ends = (point(60.0, true), point(61.0, true));
    let request = mc_coordinate_request(
        options, "raptor", &ends.0, &ends.1, "2024-03-01", "8:0:0", &vec![], walk(), "1600", &facts,
    )
    .ok()
    .unwrap();
    assert_eq!(
        mc_coordinate_route(&request, options, "2024-03-01", true, true, &facts),
        (Engine::Raptor, TransferChoice::McUltra)
    );
    let error = mc_coordinate_request(
        slack, "tbtr", &ends.0, &ends.1, "2024-03-01", "8:0:0", &vec![], walk(), "1600", &facts,
    )
    .err()
    .unwrap();
    assert_eq!(error.message, "route slacks, bans and penalties require router='raptor'");
}
