use cafein::checks::{
    check_candidates, check_cost_request, check_frontier_request, check_mc_route,
    check_policy_exclusions, check_vehicle_set, installed_streets, parse_unknown_rule,
    policy_transfers, Binding, BoundSet, Installed, RouteOptions,
};
use cafein::costs::{parse_objective, Objective};
use cafein::dates::{
    previous_service_day, resolve_previous_day, resolve_service_day, service_day, FIRST_DAY,
};
use cafein::dispatch::{
    coordinate_transfers, emissions_transfers, exclusion_transfers, mc_by_coordinates,
    parse_router, resolve_least_cost_route, resolve_matrix_route, resolve_mc_router,
    resolve_pair_route, resolve_time_router, time_transfers, ultra_active, ultra_usable,
    Candidates, Engine, MatrixRoute, PairRoute, Router, TransferChoice,
};
use cafein::fares::{
    check_clock, check_positive_window, direct_walk, fare_tables, frontier_columns,
    rule_structure, validated_cutoffs, validated_step, walk_within, zone_structure, FareSpec,
    FareTables, FrontierRow, ZoneProduct, CUTOFFS_TEXT, NO_FARE,
};
use cafein::ids::{
    public_agency_id, public_id, route_penalty_mask, Agency, FeedId, StopIndex, TripIndex, BANNED,
};
use cafein::digest::Source;
use cafein::installs::{Change, Computed};
use cafein::links::check_coordinate;
use cafein::listings::{
    build_warnings, distance_provenance_counts, point_egress, resolve_offsets, routes, stop_ids,
    street_descriptor_count, trips, FeedRoute,
};
use cafein::legs::{NetworkIds, RouteId, TripId};
use cafein::links::WalkedStop;
use cafein::options::{
    admitted_profile, factor_fingerprint, invalid_router, parse_axis, parse_provenance,
    parse_time, profile_definition, provenance_name, route_type_code, validate_points,
    validate_shortcut_options, validate_window, validated_walking_speed, DistanceProvenance,
    RouteType, StreetMode,
};
use cafein::profiles::{definition, CarCostModel, ProfileCache};
use cafein::text::{decimal, hex, io_error, joined, same_text, ValueError};

fn bits(value: f64) -> u64 {
    value.to_bits()
}

fn feed(feed: u32, id: &str) -> FeedId {
    FeedId { feed, id: id.to_string() }
}

#[test]
fn texts_are_built_from_pieces() {
    assert_eq!(joined(&["a", "", "bc"]), "abc");
    assert_eq!(decimal(0), "0");
    assert_eq!(decimal(u64::MAX), "18446744073709551615");
    assert_eq!(hex(&[0, 255, 16]), "00ff10");
    assert!(same_text("é", "é") && !same_text("a", "ab"));
    assert_eq!(io_error("gone").message, "gone");
}

#[test]
fn clocks_parse_past_midnight() {
    assert_eq!(parse_time("08:30:15").unwrap(), 8 * 3600 + 30 * 60 + 15);
    assert_eq!(parse_time("25:00:00").unwrap(), 90_000);
    assert_eq!(parse_time("0:0:0").unwrap(), 0);
    assert_eq!(parse_time("00:00:09").unwrap(), 9);
    assert_eq!(parse_time("007:05:00").unwrap(), 7 * 3600 + 5 * 60);
    for bad in ["", "8:30", "08:60:00", "08:00:60", "a:b:c", "1:2:3:4", "99999999999:0:0"] {
        let expected = format!("invalid time '{}': expected HH:MM:SS", bad);
        assert_eq!(parse_time(bad).unwrap_err().message, expected);
    }
}

#[test]
fn days_are_read_as_dates() {
    // Days are numbered from the first of January of the year one.
    let day = service_day("2024-03-01").unwrap();
    assert_eq!(previous_service_day("2024-03-01").unwrap(), day - 1);
    assert_eq!(service_day("2024-02-29").unwrap(), day - 1);
    assert_eq!(service_day("0001-01-01").unwrap(), 1);
    let error = service_day("2023-02-29").unwrap_err().message;
    assert!(error.starts_with("invalid date '2023-02-29': "));
    assert!(service_day("tomorrow").is_err());
    assert_eq!(resolve_service_day("d", Ok(7)).unwrap(), 7);
    assert_eq!(
        resolve_service_day("d", Err("why".to_string())).unwrap_err().message,
        "invalid date 'd': why"
    );
    assert_eq!(resolve_previous_day("d", Ok(7)).unwrap(), 6);
    assert_eq!(
        resolve_previous_day("d", Ok(FIRST_DAY)).unwrap_err().message,
        "date '-262143-01-01' has no previous day"
    );
}

#[test]
fn routers_and_axes_are_named() {
    assert_eq!(parse_router("auto").unwrap(), Router::Auto);
    assert_eq!(parse_router("tbtr").unwrap(), Router::Tbtr);
    assert_eq!(
        parse_router("a\"b").unwrap_err().message,
        "router must be 'auto', 'raptor', or 'tbtr', not \"a\\\"b\""
    );
    assert_eq!(
        invalid_router("x").message,
        "router must be 'auto', 'raptor', or 'tbtr', not \"x\""
    );
    assert!(parse_axis("time").unwrap());
    assert!(!parse_axis("distance").unwrap());
    assert_eq!(
        parse_axis("money").unwrap_err().message,
        "axis must be 'time' or 'distance', not \"money\""
    );
}

#[test]
fn windows_points_and_speeds_are_checked() {
    assert!(validate_window(60, &[bits(0.0), bits(50.0), bits(100.0)]).is_ok());
    assert_eq!(
        validate_window(0, &[]).unwrap_err().message,
        "window must be at least 1 second"
    );
    assert_eq!(validate_window(1, &[]).unwrap_err().message, "percentiles must not be empty");
    for bad in [f64::NAN, -1.0, 100.5, f64::INFINITY] {
        assert_eq!(
            validate_window(1, &[bits(bad)]).unwrap_err().message,
            "percentiles must be finite and within [0, 100]"
        );
    }
    assert!(validate_points(&[(bits(1.0), bits(2.0))]).is_ok());
    assert_eq!(
        validate_points(&[(0, 0), (bits(f64::NAN), 0)]).unwrap_err().message,
        "point 1 has non-finite coordinates"
    );
    assert!(validated_walking_speed(bits(3.6), 0, 0).is_ok());
    assert_eq!(
        validated_walking_speed(0, 0, 0).unwrap_err().message,
        "walking_speed_kmph must be a positive, finite number"
    );
    assert_eq!(
        validated_walking_speed(bits(1.0), bits(-1.0), 0).unwrap_err().message,
        "max_walking_time must be a non-negative, finite number"
    );
    assert_eq!(
        validated_walking_speed(bits(1.0), 0, bits(f64::INFINITY)).unwrap_err().message,
        "max_snap_distance must be a non-negative, finite number"
    );
    assert!(validate_shortcut_options(bits(1.0), bits(-0.0), 5, 5).is_ok());
    assert_eq!(
        validate_shortcut_options(bits(1.0), 0, 6, 5).unwrap_err().message,
        "min_departure must not exceed max_departure"
    );
    assert!(check_coordinate("origin ", 0, 0).is_ok());
    assert_eq!(
        check_coordinate("origin ", bits(f64::NAN), 0).unwrap_err().message,
        "origin lat and lon must be finite"
    );
}

#[test]
fn fingerprints_follow_the_factors() {
    let mut hash: u64 = 0xcbf2_9ce4_8422_2325;
    for factor in [bits(1.5), bits(f64::NAN)] {
        hash = (hash ^ factor).wrapping_mul(0x0100_0000_01b3);
    }
    hash = (hash ^ 2).wrapping_mul(0x0100_0000_01b3);
    assert_eq!(factor_fingerprint(&[bits(1.5), bits(f64::NAN)]), hash);
    assert_ne!(factor_fingerprint(&[0]), factor_fingerprint(&[0, 0]));
}

#[test]
fn names_and_codes_of_options() {
    assert_eq!(route_type_code(&RouteType::Funicular), 7);
    assert_eq!(route_type_code(&RouteType::Coach), 200);
    assert_eq!(route_type_code(&RouteType::Other(-3)), -3);
    for tier in [
        DistanceProvenance::ShapeDist,
        DistanceProvenance::ShapeLinRef,
        DistanceProvenance::OsmRelation,
        DistanceProvenance::MapMatched,
        DistanceProvenance::CrowFly,
    ] {
        assert_eq!(parse_provenance(provenance_name(tier)).unwrap(), tier);
    }
    assert_eq!(
        parse_provenance("guess").unwrap_err().message,
        "unknown distance provenance 'guess'"
    );
    assert_eq!(profile_definition("e_bike").unwrap(), StreetMode::EBike);
    assert_eq!(
        profile_definition("boat").unwrap_err().message,
        "unknown street mode 'boat'; expected one of 'walk', 'bicycle', 'e_bike', 'e_scooter', \
         'car'"
    );
    assert_eq!(admitted_profile("car", Some(3)).unwrap(), StreetMode::Car);
    assert_eq!(
        admitted_profile("car", Some(2)).unwrap_err().message,
        "the car delay model carries one value per road-class group (3)"
    );
    assert_eq!(
        admitted_profile("walk", Some(3)).unwrap_err().message,
        "the intersection-delay model applies to mode='car' only"
    );
}

#[test]
fn stops_resolve_by_id() {
    let single = StopIndex::new(&vec![feed(0, "a"), feed(0, "b")], 1);
    assert_eq!(single.resolve_stop("b").unwrap(), 1);
    assert_eq!(single.resolve_stop("0:b").unwrap_err().message, "unknown stop_id '0:b'");
    let merged = StopIndex::new(&vec![feed(0, "a"), feed(1, "a"), feed(1, "0:a")], 2);
    assert_eq!(merged.resolve_stop("0:a").unwrap(), 0);
    assert_eq!(merged.resolve_stop("1:a").unwrap(), 1);
    assert_eq!(merged.resolve_stop("1:0:a").unwrap(), 2);
    assert_eq!(
        merged.resolve_stop("a").unwrap_err().message,
        "stop_id 'a' occurs in several feeds; qualify it as '<feed_index>:a'"
    );
    let listed = vec!["0:a".to_string(), "zz".to_string(), "a".to_string()];
    assert_eq!(merged.resolve_stops(&listed).unwrap_err().message, "unknown stop_id 'zz'");
    let offsets = vec![("1:a".to_string(), 30), ("0:a".to_string(), 5)];
    assert_eq!(resolve_offsets(&merged, &offsets).unwrap(), vec![(1, 30), (0, 5)]);
    let broken = vec![("1:a".to_string(), 30), ("x".to_string(), 5)];
    assert_eq!(resolve_offsets(&merged, &broken).unwrap_err().message, "unknown stop_id 'x'");
    assert_eq!(public_id(1, 0, "a"), "a");
    assert_eq!(public_id(2, 1, "a"), "1:a");
}

#[test]
fn factors_and_penalties_follow_public_ids() {
    let trips = TripIndex::new(&vec![feed(0, "t"), feed(1, "t")], 2);
    assert_eq!(trips.find("1:t"), Some(1));
    assert_eq!(trips.find("t"), None);
    let factors = vec![("1:t".to_string(), bits(2.0)), ("gone".to_string(), bits(3.0))];
    let per_trip = trips.per_trip_factors(&factors, 2);
    assert!(f64::from_bits(per_trip[0]).is_nan());
    assert_eq!(per_trip[1], bits(2.0));
    let routes = vec![feed(0, "r"), feed(0, "s"), feed(0, "q")];
    let mask = route_penalty_mask(
        &routes,
        1,
        &vec!["s".to_string()],
        &vec![("r".to_string(), 90), ("q".to_string(), u64::MAX)],
    );
    // A penalty never reaches the mark of a ban.
    assert_eq!(mask, vec![90, BANNED, BANNED - 1]);
    assert!(route_penalty_mask(&routes, 1, &vec![], &vec![]).is_empty());
    let agencies = vec![
        Agency { feed: 0, id: Some("x".to_string()) },
        Agency { feed: 1, id: Some("y".to_string()) },
        Agency { feed: 1, id: None },
    ];
    assert_eq!(public_agency_id(&agencies, 2, 0, &None), Some("0:x".to_string()));
    assert_eq!(public_agency_id(&agencies, 2, 1, &None), None);
    let own = Some("z".to_string());
    assert_eq!(public_agency_id(&agencies, 2, 1, &own), Some("1:z".to_string()));
}

#[test]
fn networks_list_what_they_hold() {
    let ids = NetworkIds {
        feed_count: 2,
        stops: vec![feed(0, "a"), feed(1, "b")],
        trips: vec![TripId { feed: 1, id: "t".to_string(), route: 0 }],
        routes: vec![RouteId { feed: 1, id: "r".to_string(), short_name: None }],
    };
    assert_eq!(stop_ids(&ids), vec!["0:a", "1:b"]);
    assert_eq!(trips(&ids), vec![("1:t".to_string(), "1:r".to_string())]);
    let feed_routes = vec![FeedRoute {
        feed: 1,
        id: "r".to_string(),
        agency_id: None,
        route_type: RouteType::Rail,
    }];
    let agencies = vec![Agency { feed: 1, id: Some("y".to_string()) }];
    let listed = routes(&feed_routes, &agencies, 2);
    assert_eq!(listed[0].id, "1:r");
    assert_eq!(listed[0].agency, Some("1:y".to_string()));
    assert_eq!(listed[0].route_type, 2);
    assert_eq!(
        build_warnings(2, 1),
        vec![
            "quarantined 2 trip(s) with data-quality problems; routing excludes them",
            "interpolated blank stop times on 1 trip(s)",
        ]
    );
    assert!(build_warnings(0, 0).is_empty());
    let tiers = vec![
        DistanceProvenance::CrowFly,
        DistanceProvenance::ShapeDist,
        DistanceProvenance::CrowFly,
    ];
    assert_eq!(distance_provenance_counts(&tiers), vec![("shape_dist", 1), ("crow_fly", 2)]);
    assert_eq!(street_descriptor_count(false, false), 13);
    assert_eq!(street_descriptor_count(true, true), 20);
    let links = vec![
        Some(vec![WalkedStop { stop: 1, seconds: 9, meters: 4 }]),
        None,
        Some(vec![WalkedStop { stop: 1, seconds: 7, meters: 3 }]),
    ];
    assert_eq!(point_egress(2, &links), vec![vec![], vec![(0, 9, 4), (2, 7, 3)]]);
    assert!(point_egress(0, &Vec::new()).is_empty());
}

#[test]
fn engines_follow_the_router_and_the_caches() {
    let time = |router, cached, excluded| resolve_time_router(router, cached, "2024-01-01", excluded);
    assert_eq!(time(Router::Auto, None, false).unwrap(), Engine::Raptor);
    assert_eq!(time(Router::Auto, Some("2024-01-01"), false).unwrap(), Engine::Tbtr);
    assert_eq!(time(Router::Auto, Some("2024-01-02"), false).unwrap(), Engine::Raptor);
    assert_eq!(time(Router::Auto, Some("2024-01-01"), true).unwrap(), Engine::Raptor);
    assert_eq!(time(Router::Raptor, Some("2024-01-01"), false).unwrap(), Engine::Raptor);
    assert_eq!(
        time(Router::Tbtr, None, true).unwrap_err().message,
        "route/trip/stop exclusions require router='raptor'"
    );
    let mc = |router, same| resolve_mc_router(router, Some("d"), same, "d", false);
    assert_eq!(mc(Router::Auto, true), Engine::Tbtr);
    assert_eq!(mc(Router::Auto, false), Engine::Raptor);
    assert_eq!(mc(Router::Tbtr, false), Engine::Tbtr);
}

#[test]
fn shortcut_sets_serve_whole_days_only() {
    let day = Some((0, u32::MAX - 1));
    let morning = Some((0, 40_000));
    assert!(ultra_active(day) && !ultra_active(morning) && !ultra_active(None));
    assert_eq!(time_transfers(day), TransferChoice::Ultra);
    assert_eq!(time_transfers(morning), TransferChoice::Closure);
    assert_eq!(exclusion_transfers(day, true), TransferChoice::Closure);
    assert_eq!(emissions_transfers(day, true), TransferChoice::McUltra);
    assert_eq!(emissions_transfers(day, false), TransferChoice::Closure);
    assert_eq!(coordinate_transfers(true, false, day), TransferChoice::Closure);
    assert_eq!(coordinate_transfers(false, false, day), TransferChoice::Ultra);
    assert!(ultra_usable(Router::Auto, false, day, &vec![false, true]));
    assert!(!ultra_usable(Router::Auto, false, day, &vec![false]));
    assert!(!ultra_usable(Router::Auto, true, day, &vec![true]));
    assert_eq!(
        resolve_matrix_route(Router::Auto, true, None, "d", false).unwrap(),
        MatrixRoute::DoorToDoor
    );
    assert_eq!(
        resolve_matrix_route(Router::Raptor, false, None, "d", false).unwrap(),
        MatrixRoute::Boarding(Engine::Raptor)
    );
    assert_eq!(
        resolve_least_cost_route(
            Candidates::Time,
            Router::Raptor,
            TransferChoice::Closure,
            true,
            None,
            false,
            None,
            "d",
        ),
        MatrixRoute::Boarding(Engine::Raptor)
    );
    assert_eq!(resolve_pair_route(true, true, false, day, true), PairRoute::Unreachable);
    assert_eq!(resolve_pair_route(false, false, false, day, true), PairRoute::Coordinates);
    assert_eq!(resolve_pair_route(false, false, true, day, true), PairRoute::Reverse);
    assert_eq!(resolve_pair_route(false, false, false, None, true), PairRoute::Boarding);
    assert!(mc_by_coordinates(Router::Auto, TransferChoice::McUltra, true));
    assert!(!mc_by_coordinates(Router::Auto, TransferChoice::Closure, true));
}

#[test]
fn requests_need_what_is_installed() {
    let all = Installed { distances: true, leg_geometries: true };
    let bare = Installed { distances: true, leg_geometries: false };
    let none = Installed { distances: false, leg_geometries: false };
    assert!(installed_streets(true).is_ok());
    assert!(installed_streets(false).unwrap_err().message.starts_with("no street network"));
    assert_eq!(check_cost_request("raptor", all, true, Some(60)).unwrap(), Router::Raptor);
    assert!(check_cost_request("raptor", none, false, None)
        .unwrap_err()
        .message
        .starts_with("no trip distances installed"));
    assert!(check_cost_request("raptor", bare, true, None)
        .unwrap_err()
        .message
        .starts_with("no leg geometries installed"));
    assert!(check_cost_request("raptor", bare, false, None).is_ok());
    assert_eq!(
        check_candidates("pareto", "emissions", bits(1.0)).unwrap(),
        Candidates::Pareto
    );
    assert_eq!(
        check_candidates("all", "emissions", bits(1.0)).unwrap_err().message,
        "candidates must be 'time' or 'pareto'"
    );
    assert_eq!(
        check_candidates("pareto", "fare", bits(1.0)).unwrap_err().message,
        "pareto candidates support the 'emissions' objective only"
    );
    assert_eq!(
        check_candidates("pareto", "emissions", 0).unwrap_err().message,
        "bucket must be a positive number of grams"
    );
    assert!(check_frontier_request(bits(1.0), "auto", 60, all, true).is_ok());
    assert_eq!(
        check_frontier_request(bits(1.0), "auto", 0, all, true).unwrap_err().message,
        "window must be a positive number of seconds"
    );
    assert_eq!(parse_objective("fare", true).unwrap(), Objective::Fare);
    assert!(parse_objective("fare", false).is_err());
    assert!(parse_objective("beauty", true).unwrap_err().message.contains("\"beauty\""));
}

#[test]
fn candidate_knobs_are_exclusive() {
    let plain = RouteOptions {
        bucket: bits(1.0),
        slack: 0,
        max_options: None,
        diverse: false,
        banded: true,
    };
    assert_eq!(check_mc_route(plain, "auto", false, true).unwrap(), Router::Auto);
    let slack = RouteOptions { slack: bits(-1.0), ..plain };
    assert_eq!(
        check_mc_route(slack, "auto", false, true).unwrap_err().message,
        "slack must be a non-negative number of seconds"
    );
    let nothing = RouteOptions { max_options: Some(0), ..plain };
    assert_eq!(
        check_mc_route(nothing, "auto", false, true).unwrap_err().message,
        "max_options must be a positive integer"
    );
    let relaxed = RouteOptions { slack: bits(60.0), ..plain };
    assert_eq!(
        check_mc_route(relaxed, "raptor", false, true).unwrap_err().message,
        "max_slower requires strict pareto candidates"
    );
    let unbanded = RouteOptions { banded: false, ..relaxed };
    assert!(check_mc_route(unbanded, "tbtr", false, true).is_err());
    assert!(check_mc_route(unbanded, "raptor", false, true).is_ok());
}

#[test]
fn vehicle_sets_serve_their_binding_only() {
    let bike = Binding { mode: "bicycle".to_string(), budget: bits(600.0), budget_text: "600".to_string() };
    let longer = Binding { mode: "bicycle".to_string(), budget: bits(900.0), budget_text: "900".to_string() };
    assert!(!policy_transfers(BoundSet::Mode, Some(&bike), None).unwrap());
    assert!(policy_transfers(BoundSet::Mode, Some(&bike), Some(&bike)).unwrap());
    assert_eq!(
        policy_transfers(BoundSet::Carriage, Some(&bike), Some(&longer)).unwrap_err().message,
        "the computed carriage set is bound to ('bicycle', 600 s), not ('bicycle', 900 s); \
         recompute with compute_carriage_transfers"
    );
    assert_eq!(
        policy_transfers(BoundSet::Carriage, None, Some(&bike)).unwrap_err().message,
        "street_policy transfers= with a carried vehicle needs the carriage set; compute it \
         with compute_carriage_transfers(mode, budget)"
    );
    assert!(policy_transfers(BoundSet::Mode, None, Some(&bike)).is_err());
    assert!(check_policy_exclusions(false, true).is_ok());
    assert!(check_policy_exclusions(true, true).is_err());
    assert!(check_vehicle_set(BoundSet::Mode, "bicycle", bits(60.0)).is_ok());
    assert_eq!(
        check_vehicle_set(BoundSet::Mode, "walk", bits(60.0)).unwrap_err().message,
        "walking transfers are the installed set; mode transfers take a shared vehicle mode"
    );
    assert_eq!(
        check_vehicle_set(BoundSet::Carriage, "bicycle", 0).unwrap_err().message,
        "max_seconds must be a positive, finite transfer budget"
    );
    assert!(parse_unknown_rule("allow").unwrap() && !parse_unknown_rule("forbid").unwrap());
    assert_eq!(
        parse_unknown_rule("ask").unwrap_err().message,
        "unknown_bike_trips must be 'forbid' or 'allow', not \"ask\""
    );
}

#[test]
fn installs_drop_what_they_outdate() {
    let mut computed = Computed::new();
    let fill = |computed: &mut Computed| {
        computed.ultra = Some((0, u32::MAX - 1));
        computed.mcultra = Some(((0, u32::MAX - 1), vec![bits(1.0)]));
        computed.tbtr = Some("d".to_string());
        computed.mctbtr = Some(("e".to_string(), vec![]));
        computed.mode = Some(Binding { mode: "bicycle".to_string(), budget: 0, budget_text: String::new() });
        computed.carriage = Some(Binding { mode: "bicycle".to_string(), budget: 0, budget_text: String::new() });
    };
    fill(&mut computed);
    assert_eq!(computed.time_date(), Some("d"));
    assert_eq!(computed.mc_date(), Some("e"));
    computed.apply(Change::Transfers);
    assert!(computed.mode.is_none() && computed.carriage.is_none());
    assert!(computed.ultra.is_some() && computed.mcultra.is_some());
    fill(&mut computed);
    computed.apply(Change::TripDistances);
    assert!(computed.mcultra.is_none() && computed.mctbtr.is_none());
    assert!(computed.tbtr.is_some() && computed.ultra.is_some());
    fill(&mut computed);
    computed.apply(Change::StreetNetwork);
    assert!(computed.ultra.is_none() && computed.mcultra.is_none());
    assert!(computed.mode.is_some());
    fill(&mut computed);
    computed.apply(Change::MultimodalStreets);
    assert!(computed.mode.is_none() && computed.carriage.is_none());
    assert!(computed.ultra.is_some());
}

fn bound(mode: &str) -> Binding {
    Binding { mode: mode.to_string(), budget: bits(600.0), budget_text: "600".to_string() }
}

#[test]
fn outdated_sets_never_serve() {
    for set in [BoundSet::Mode, BoundSet::Carriage] {
        for change in [Change::Transfers, Change::MultimodalStreets] {
            let mut computed = Computed::new();
            computed.apply(Change::VehicleSet(set, bound("bicycle")));
            let wanted = bound("bicycle");
            let served = policy_transfers(set, computed.vehicle_set(set), Some(&wanted));
            assert_eq!(served.ok(), Some(true));
            computed.apply(change);
            for asked in ["bicycle", "car"] {
                let wanted = bound(asked);
                let held = computed.vehicle_set(set);
                let message = policy_transfers(set, held, Some(&wanted)).unwrap_err().message;
                assert!(message.contains("compute it with compute_"));
            }
        }
    }
}

#[test]
fn every_change_forgets_the_file() {
    let source = || Some(Source { path: "p".to_string(), meta_crc: 1, streets_crc: 2 });
    let changes = [
        Change::Transfers,
        Change::TripDistances,
        Change::StreetNetwork,
        Change::MultimodalStreets,
        Change::Annotation,
        Change::Ultra((0, 10)),
        Change::McUltra((0, 10), vec![bits(1.0)]),
        Change::Tbtr("d".to_string()),
        Change::McTbtr("e".to_string(), vec![]),
        Change::VehicleSet(BoundSet::Mode, bound("bicycle")),
        Change::VehicleSet(BoundSet::Carriage, bound("bicycle")),
    ];
    let mut computed = Computed::new();
    for change in changes {
        computed.source = source();
        computed.apply(change);
        assert!(computed.source.is_none());
    }
    assert_eq!(computed.ultra, Some((0, 10)));
    assert_eq!(computed.mcultra, Some(((0, 10), vec![bits(1.0)])));
    assert_eq!((computed.time_date(), computed.mc_date()), (Some("d"), Some("e")));
    assert_eq!(computed.vehicle_set(BoundSet::Carriage).unwrap().mode, "bicycle");
}

fn delays(seconds: Vec<f64>) -> CarCostModel {
    CarCostModel {
        group_seconds: seconds.into_iter().map(bits).collect(),
        groups: vec![0, 1, 2],
        ramp_share_high: bits(0.5),
        ramp_share_low: 0,
        ramp_multiplier: bits(1.0),
        congestion_multiplier: bits(1.0),
    }
}

#[test]
fn profiles_are_compiled_once_per_definition() {
    let mut cache: ProfileCache<u32> = ProfileCache::new();
    let mut compiled = 0;
    let mut ask = |mode: &str, model: Option<CarCostModel>, outcome: Result<u32, String>| {
        let wanted = definition(mode, model)?;
        let place = cache.position(wanted, |_| {
            compiled += 1;
            outcome
        })?;
        Ok::<(usize, u32), ValueError>((place, *cache.get(place)))
    };
    assert_eq!(ask("car", None, Ok(7)).unwrap(), (0, 7));
    assert_eq!(ask("walk", None, Ok(8)).unwrap(), (1, 8));
    assert_eq!(ask("car", None, Ok(9)).unwrap(), (0, 7));
    // A delay model joins the definition.
    assert_eq!(ask("car", Some(delays(vec![1.0, 2.0, 3.0])), Ok(10)).unwrap(), (2, 10));
    assert_eq!(ask("car", Some(delays(vec![1.0, 2.0, 3.0])), Ok(11)).unwrap(), (2, 10));
    assert_eq!(ask("car", Some(delays(vec![1.0, 2.0, 4.0])), Ok(12)).unwrap(), (3, 12));
    // Zeros of either sign are equal, and a NaN equals nothing.
    assert_eq!(ask("car", Some(delays(vec![0.0, 2.0, 4.0])), Ok(13)).unwrap(), (4, 13));
    assert_eq!(ask("car", Some(delays(vec![-0.0, 2.0, 4.0])), Ok(14)).unwrap(), (4, 13));
    assert_eq!(ask("car", Some(delays(vec![f64::NAN, 2.0, 4.0])), Ok(15)).unwrap(), (5, 15));
    assert_eq!(ask("car", Some(delays(vec![f64::NAN, 2.0, 4.0])), Ok(16)).unwrap(), (6, 16));
    // A failure is reported in its own words and kept nowhere.
    let refused = ask("bicycle", None, Err("no speeds".to_string())).unwrap_err();
    assert_eq!(refused.message, "no speeds");
    assert_eq!(ask("bicycle", None, Ok(17)).unwrap(), (7, 17));
    assert_eq!(
        ask("walk", Some(delays(vec![1.0, 2.0, 3.0])), Ok(18)).unwrap_err().message,
        "the intersection-delay model applies to mode='car' only"
    );
    assert_eq!(
        ask("car", Some(delays(vec![1.0])), Ok(18)).unwrap_err().message,
        "the car delay model carries one value per road-class group (3)"
    );
    assert_eq!(compiled, 9);
}

fn no_tables() -> FareSpec {
    FareSpec {
        stop_zone: None,
        products: None,
        route_type: None,
        route_fare: None,
        unlimited_transfers: None,
        allow_same_route: None,
        pair_fare: None,
        max_discounted_transfers: None,
        transfer_allowance: None,
        fare_cap: None,
    }
}

fn rule_tables() -> FareSpec {
    FareSpec {
        route_type: Some(vec![0, NO_FARE]),
        route_fare: Some(vec![bits(2.0), bits(f64::NAN)]),
        unlimited_transfers: Some(vec![false]),
        allow_same_route: Some(vec![true]),
        pair_fare: Some(vec![bits(3.0)]),
        max_discounted_transfers: Some(1),
        transfer_allowance: Some(3600),
        fare_cap: Some(bits(10.0)),
        ..no_tables()
    }
}

fn fault(spec: FareSpec) -> String {
    fare_tables(spec, 2, 1).unwrap_err().message
}

#[test]
fn fare_tables_fit_the_network() {
    let product = ZoneProduct { price: bits(2.5), zones: 1, duration: bits(3600.0), transfers: NO_FARE };
    let zones = FareSpec { stop_zone: Some(vec![0]), products: Some(vec![product]), ..no_tables() };
    match fare_tables(zones, 2, 1).unwrap() {
        FareTables::Zone(zones) => assert_eq!(zones.products.len(), 1),
        FareTables::RuleBased(_) => panic!("a zone structure"),
    }
    let wide = FareSpec { stop_zone: Some(vec![128]), products: Some(vec![]), ..no_tables() };
    assert_eq!(fault(wide), "fare zone indexes must stay below 128");
    let short = FareSpec { stop_zone: Some(vec![]), ..no_tables() };
    assert_eq!(fault(short), "the fare tables' stop_zone must cover every stop");
    let bare = FareSpec { stop_zone: Some(vec![NO_FARE]), ..no_tables() };
    assert_eq!(fault(bare), "fare tables are missing \"products\"");
    let rules = fare_tables(rule_tables(), 2, 1).unwrap();
    assert_eq!(rule_structure(rules).unwrap().max_discounted_transfers, 1);
    assert_eq!(fault(no_tables()), "fare tables are missing \"route_type\"");
    let uncapped = FareSpec { fare_cap: None, ..rule_tables() };
    assert_eq!(fault(uncapped), "fare tables are missing \"fare_cap\"");
    let uncovered = FareSpec { route_type: Some(vec![0]), ..rule_tables() };
    assert_eq!(fault(uncovered), "the fare tables' route arrays must cover every route");
    let uneven = FareSpec { pair_fare: Some(vec![]), ..rule_tables() };
    assert_eq!(fault(uneven), "the fare tables' type arrays disagree on the type count");
    let beyond = FareSpec { route_type: Some(vec![0, 1]), ..rule_tables() };
    assert_eq!(fault(beyond), "the fare tables' route types must index the type arrays");
    let rules = fare_tables(rule_tables(), 2, 1).unwrap();
    assert_eq!(
        zone_structure(rules).unwrap_err().message,
        "the zone frontier takes a zone fare structure"
    );
}

#[test]
fn fare_frontiers_check_their_samples() {
    assert!(validated_step(3600, None).is_ok());
    assert!(validated_step(3600, Some(60)).is_ok());
    assert_eq!(
        validated_step(3600, Some(0)).unwrap_err().message,
        "departure_step must be a positive number of seconds"
    );
    assert!(validated_step(100_000, Some(1)).is_ok());
    assert_eq!(
        validated_step(100_001, Some(1)).unwrap_err().message,
        "window / departure_step samples the window more than 100000 times; widen the step or \
         narrow the window"
    );
    assert!(validated_cutoffs(&[bits(0.0), bits(1.5)]).is_ok());
    for bad in [vec![], vec![bits(-1.0)], vec![bits(2.0), bits(1.0)], vec![bits(f64::INFINITY)]] {
        assert_eq!(validated_cutoffs(&bad).unwrap_err().message, CUTOFFS_TEXT);
    }
    assert!(check_clock(0, u32::MAX).is_ok());
    assert_eq!(
        check_clock(1, u32::MAX).unwrap_err().message,
        "departure + window overflows the router clock; narrow the window"
    );
    assert!(check_positive_window(0).is_err() && check_positive_window(1).is_ok());
    assert_eq!(direct_walk(1, 1, &vec![], None), Some(0));
    assert_eq!(direct_walk(1, 2, &vec![(2, 90)], Some(90)), Some(90));
    assert_eq!(direct_walk(1, 2, &vec![(2, 90)], Some(89)), None);
    assert_eq!(walk_within(Some(5), Some(4)), None);
    assert_eq!(walk_within(Some(5), None), Some(5));
}

#[test]
fn fare_frontiers_flatten_in_order() {
    let row = |cutoff: f64, seconds: u32| {
        Some(FrontierRow { cutoff: bits(cutoff), travel_time: seconds, fare: bits(1.0), rides: 1 })
    };
    let cells = vec![
        vec![vec![row(1.0, 60), None], vec![]],
        vec![vec![], vec![None, row(2.0, 50)]],
    ];
    let table = frontier_columns(&cells);
    assert_eq!(table.from_index, vec![0, 1]);
    assert_eq!(table.to_index, vec![0, 1]);
    assert_eq!(table.cutoff, vec![bits(1.0), bits(2.0)]);
    assert_eq!(table.travel_time_s, vec![60, 50]);
    assert_eq!(table.rides, vec![1, 1]);
}
