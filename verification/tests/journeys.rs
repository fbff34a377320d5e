use cafein::carriage::{
    carriage_best, carriage_journey, carrying_mask, park_mask, plane_minimum, CarriageLeg,
    EgressOffer,
};
use cafein::fares::{ZoneProduct, NO_FARE};
use cafein::ids::FeedId;
use cafein::journeys::{
    direct_walk, frontier_entries, route_entries, walk_within_band, windowed_entries, Entry,
    Journey, Leg,
};
use cafein::legs::{
    leg_entry, transfer_leg, walk_entry, LegContext, NetworkIds, RouteId, TripId, WalkMaps,
};
use cafein::links::WalkedStop;
use cafein::options::DistanceProvenance;
use cafein::progress::{
    decode_timer, deliver, progress_hook, report_width, LogBridge, PhaseTimer, ProgressTicker,
    DEBUG, INFO,
};
use cafein::zone_refine::{
    all_closed, any_climbing, apply_answer, chain_plan, close_unreached, from_zoned, least_cap,
    price_range, refined_rows, seed_reach, span_tickets, statically_priceable, working_bounds,
    zone_union, Answer, ChainStep, FoldRow, RowChoice, SlotBound, NO_STOP,
};

fn bits(value: f64) -> u64 {
    value.to_bits()
}

fn ride(board_time: u32, alight_time: u32) -> Leg {
    Leg::Transit {
        trip: 0,
        board_stop: 0,
        alight_stop: 1,
        board_position: 0,
        alight_position: 1,
        board_time,
        alight_time,
    }
}

fn journey(departure: u32, arrival: u32) -> Journey {
    Journey { departure, arrival, legs: vec![ride(departure, arrival)] }
}

fn ids() -> NetworkIds {
    NetworkIds {
        feed_count: 1,
        stops: vec![
            FeedId { feed: 0, id: "a".to_string() },
            FeedId { feed: 0, id: "b".to_string() },
        ],
        trips: vec![TripId { feed: 0, id: "t".to_string(), route: 0 }],
        routes: vec![RouteId { feed: 0, id: "r".to_string(), short_name: Some("5".to_string()) }],
    }
}

#[test]
fn journeys_count_their_rides() {
    let walk = Leg::Transfer { from_stop: 0, to_stop: 1, departure: 0, arrival: 5 };
    let both = Journey { departure: 0, arrival: 9, legs: vec![ride(0, 3), walk, ride(5, 9)] };
    assert_eq!(both.rides(), 2);
    assert_eq!(Journey { departure: 0, arrival: 5, legs: vec![walk] }.rides(), 0);
    let here = (bits(60.0), bits(25.0));
    assert_eq!(direct_walk(here, here, Some((40, 3))), Some((0, 0)));
    assert_eq!(direct_walk(here, (bits(61.0), bits(25.0)), Some((40, 3))), Some((40, 3)));
}

#[test]
fn walks_stay_within_the_band() {
    let journeys = [journey(100, 200), journey(110, 190)];
    assert!(walk_within_band(150, 100, &journeys, None));
    assert!(walk_within_band(100, 100, &journeys, Some(10)));
    assert!(!walk_within_band(101, 100, &journeys, Some(10)));
    assert!(walk_within_band(9999, 100, &[], Some(10)));
}

#[test]
fn walking_drops_the_journeys_it_beats() {
    // A journey as slow as the walk is dropped, one a second faster stays.
    let journeys = vec![journey(100, 190), journey(120, 199)];
    let entries = route_entries(&journeys, Some(80), 100, false);
    assert!(entries.contains(&Entry::Walk { departure: 100, seconds: 80 }));
    assert!(entries.contains(&Entry::Ridden { journey: 1 }));
    assert!(!entries.contains(&Entry::Ridden { journey: 0 }));
    let by = route_entries(&vec![journey(130, 190), journey(110, 150)], Some(80), 200, true);
    // The walk leaves at a hundred and twenty.
    assert!(by.contains(&Entry::Ridden { journey: 0 }));
    assert!(!by.contains(&Entry::Ridden { journey: 1 }));
    assert!(by.contains(&Entry::Walk { departure: 120, seconds: 80 }));
    assert_eq!(
        route_entries(&journeys, None, 100, false),
        vec![Entry::Ridden { journey: 0 }, Entry::Ridden { journey: 1 }]
    );
}

#[test]
fn departing_the_walk_leads() {
    // A journey that rides nothing but is faster than the direct walk does
    // not push the walk out of its place.
    let transfer = Leg::Transfer { from_stop: 0, to_stop: 1, departure: 100, arrival: 105 };
    let unridden = Journey { departure: 100, arrival: 105, legs: vec![transfer] };
    let journeys = vec![unridden, journey(100, 109)];
    assert_eq!(
        route_entries(&journeys, Some(10), 100, false),
        vec![
            Entry::Walk { departure: 100, seconds: 10 },
            Entry::Ridden { journey: 0 },
            Entry::Ridden { journey: 1 },
        ]
    );
    // By a deadline such a journey stands for the walk.
    let by = route_entries(&journeys, Some(10), 109, true);
    assert_eq!(by, vec![Entry::Ridden { journey: 0 }, Entry::Ridden { journey: 1 }]);
    assert_eq!(
        route_entries(&vec![], Some(10), 100, false),
        vec![Entry::Walk { departure: 100, seconds: 10 }]
    );
}

#[test]
fn windows_merge_by_departure() {
    let journeys = vec![journey(150, 190), journey(120, 180)];
    let merged = windowed_entries(&journeys, &vec![(160, 200), (120, 160)], true);
    assert_eq!(
        merged,
        vec![
            Entry::Walk { departure: 160, seconds: 40 },
            Entry::Ridden { journey: 0 },
            Entry::Walk { departure: 120, seconds: 40 },
            Entry::Ridden { journey: 1 },
        ]
    );
    let alone = windowed_entries(&journeys, &vec![], false);
    assert_eq!(alone, vec![Entry::Ridden { journey: 0 }, Entry::Ridden { journey: 1 }]);
    let cell = frontier_entries(&vec![journey(100, 150)], Some(60), true, 100, None);
    assert_eq!(
        cell,
        vec![Entry::Walk { departure: 100, seconds: 60 }, Entry::Ridden { journey: 0 }]
    );
    let undrawn = frontier_entries(&vec![journey(100, 150)], Some(40), false, 100, None);
    assert!(undrawn.is_empty());
}

#[test]
fn legs_are_reported_by_public_ids() {
    let ids = ids();
    let walks = WalkMaps {
        access: vec![WalkedStop { stop: 0, seconds: 60, meters: bits(55.0) }],
        egress: vec![],
    };
    let transfers = vec![(1, bits(12.0))];
    let context = LegContext {
        walks: Some(&walks),
        has_ends: true,
        transfers: &transfers,
        measured: Some((bits(900.0), DistanceProvenance::ShapeDist)),
        has_leg_geometry: false,
        geometries: true,
    };
    let access = leg_entry(&Leg::Access { to_stop: 0, departure: 1, arrival: 61 }, &ids, &context);
    assert_eq!((access.kind, access.to_stop.as_deref()), ("access", Some("a")));
    assert_eq!((access.distance, access.drawn), (Some(bits(55.0)), true));
    let transit = leg_entry(&ride(70, 90), &ids, &context);
    assert_eq!(transit.trip_id.as_deref(), Some("t"));
    assert_eq!(transit.route_id.as_deref(), Some("r"));
    assert_eq!(transit.route_short_name.as_deref(), Some("5"));
    assert_eq!(transit.distance_provenance, Some("shape_dist"));
    assert!(!transit.drawn);
    let transfer = Leg::Transfer { from_stop: 0, to_stop: 1, departure: 90, arrival: 99 };
    assert_eq!(leg_entry(&transfer, &ids, &context).distance, Some(bits(12.0)));
    let egress = Leg::Egress { from_stop: 1, departure: 99, arrival: 120 };
    assert_eq!(leg_entry(&egress, &ids, &context).distance, None);
    let walk = walk_entry(100, 60, bits(80.0), false);
    assert_eq!((walk.departure, walk.arrival, walk.distance), (100, 160, Some(bits(80.0))));
    assert_eq!(transfer_leg(&vec![(3, 9, 8), (1, 7, 6)], 1), Some((7, 6)));
    assert_eq!(transfer_leg(&vec![], 1), None);
}

#[test]
fn carriage_masks_and_planes() {
    let bikes = vec![Some(true), Some(false), None];
    assert_eq!(carrying_mask(&bikes, false), vec![true, false, false]);
    assert_eq!(carrying_mask(&bikes, true), vec![true, false, true]);
    assert_eq!(park_mask(None, 2), vec![true, true]);
    assert_eq!(park_mask(Some(&vec![1]), 2), vec![false, true]);
    let best = plane_minimum(&vec![Some(9), None, None], &vec![Some(8), Some(3), None]);
    assert_eq!(best, vec![Some(8), Some(3), None]);
}

#[test]
fn carriage_journeys_leave_by_the_earliest_egress() {
    let offer = |carrying, stop, seconds, label| EgressOffer { carrying, stop, seconds, label };
    let offers = vec![
        offer(true, 0, 30, Some((1, 100))),
        offer(false, 1, 10, Some((2, 110))),
        offer(false, 1, 20, Some((2, 110))),
        offer(true, 1, 1, None),
    ];
    let choice = carriage_best(&offers).unwrap();
    assert_eq!((choice.arrival, choice.carrying, choice.round, choice.stop), (120, false, 2, 1));
    let legs = vec![
        CarriageLeg::Access { carrying: true, to_stop: 0, arrival: 60 },
        CarriageLeg::Transit {
            trip: 0,
            board_stop: 0,
            alight_stop: 1,
            board_time: 70,
            alight_time: 105,
            bike_aboard: true,
        },
        CarriageLeg::Park { stop: 1, at: 110 },
    ];
    let result = carriage_journey(&legs, choice, &ids(), 50);
    assert_eq!((result.departure, result.arrival, result.rides), (50, 120, 1));
    assert_eq!(result.legs[1].trip_id.as_deref(), Some("t"));
    assert_eq!(result.legs[1].flag, Some(true));
    assert_eq!(result.legs[2].kind, "park");
    let last = result.legs.last().unwrap();
    assert_eq!((last.kind, last.departure, last.arrival), ("egress", 110, 120));
    assert!(carriage_best(&vec![]).is_none());
}

#[test]
fn disarmed_bridges_are_silent() {
    let mut bridge = LogBridge::new();
    let silent = || -> String { unreachable!() };
    let spoken = || "m".to_string();
    assert!(bridge.emit("t", INFO, silent, None, None).is_none());
    bridge.set_log_level(INFO);
    assert!(bridge.emit("t", INFO, silent, None, None).is_none());
    assert!(bridge.install_log_dispatch());
    assert!(!bridge.install_log_dispatch());
    assert_eq!(bridge.emit("t", INFO, spoken, None, None).unwrap().message, "m");
    assert!(bridge.emit("t", DEBUG, silent, None, None).is_none());
    assert!(bridge.enabled(INFO) && !bridge.enabled(DEBUG));
}

#[test]
fn records_are_dispatched_once() {
    let mut bridge = LogBridge::new();
    bridge.set_log_level(INFO);
    bridge.install_log_dispatch();
    let mut built = 0;
    let mut seen = Vec::new();
    for level in [DEBUG, INFO] {
        let message = || {
            built += 1;
            "m".to_string()
        };
        let line = bridge.emit("t", level, message, Some("p"), Some(bits(0.5)));
        // The dispatch fails, and nobody hears of it.
        deliver(line, |record| {
            seen.push((record.target, record.level, record.message, record.phase, record.seconds));
            Err("no listener".to_string())
        });
    }
    assert_eq!(built, 1);
    assert_eq!(seen, vec![("t", INFO, "m".to_string(), Some("p"), Some(bits(0.5)))]);
}

#[test]
fn phases_log_their_start_and_end() {
    let mut bridge = LogBridge::new();
    bridge.set_log_level(DEBUG);
    bridge.install_log_dispatch();
    let (timer, line) = decode_timer(&bridge);
    let start = line.unwrap();
    assert_eq!(start.message, "decoding the artifact payload");
    assert_eq!((start.phase, start.seconds), (None, None));
    let end = timer.finish(&bridge, || "1.5".to_string(), bits(1.53)).unwrap();
    assert_eq!(end.message, "decoded the artifact payload in 1.5 s");
    assert_eq!(end.seconds, Some(bits(1.53)));
    assert_eq!((end.target, end.level, end.phase), ("cafein.artifact", INFO, Some("artifact.load.decode")));
    let (timer, _) = PhaseTimer::start(&bridge, "x", "y", "doing", "done");
    let end = timer.finish(&bridge, || "0.0".to_string(), 0).unwrap();
    assert_eq!(end.message, "done in 0.0 s");
    // Nothing is written for a line that is dropped.
    bridge.set_log_level(INFO + 1);
    let (timer, line) = PhaseTimer::start(&bridge, "x", "y", "doing", "done");
    assert!(line.is_none());
    assert!(timer.finish(&bridge, || unreachable!(), 0).is_none());
    assert!(report_width(&bridge, "matrix", 4).is_none());
    bridge.set_log_level(DEBUG);
    let width = report_width(&bridge, "matrix", 4).unwrap();
    assert_eq!((width.message.as_str(), width.seconds), ("matrix on 4 workers", None));
}

#[test]
fn progress_lines_are_throttled() {
    let mut bridge = LogBridge::new();
    bridge.set_log_level(INFO);
    bridge.install_log_dispatch();
    let ticker = ProgressTicker::new(&bridge, 101);
    assert_eq!(ticker.step, 6);
    assert!(progress_hook(&ticker));
    let line = ticker.tick(&bridge, "matrix", 6, || "0.3".to_string()).unwrap();
    assert_eq!(line.message, "matrix 5% (6/101 origins, 0.3 s elapsed)");
    assert_eq!((line.phase, line.seconds), (None, None));
    assert!(ticker.tick(&bridge, "matrix", 7, || unreachable!()).is_none());
    let tick = |done| ticker.tick(&bridge, "m", done, || "0".to_string());
    let lines = (1..=101).filter(|&done| tick(done).is_some()).count();
    assert_eq!(lines, 16);
    assert!(!progress_hook(&ProgressTicker::new(&bridge, 39)));
    assert!(!progress_hook(&ProgressTicker::new(&LogBridge::new(), 400)));
}

fn product(price: f64, zones: u128) -> ZoneProduct {
    ZoneProduct { price: bits(price), zones, duration: bits(3600.0), transfers: NO_FARE }
}

#[test]
fn tariffs_bound_their_fares() {
    let products = vec![product(3.0, 0b01), product(5.0, 0b11)];
    assert_eq!(price_range(&products), Some((bits(3.0), bits(5.0))));
    assert_eq!(price_range(&vec![]), None);
    assert_eq!(price_range(&vec![product(f64::INFINITY, 1)]), None);
    assert_eq!(zone_union(&products), 0b11);
    // Only a product over every zone spans a journey; one ticket per begun
    // hour and one more.
    assert_eq!(span_tickets(&products[0], 0b11, Some(3600), 7200), None);
    assert_eq!(span_tickets(&products[1], 0b11, Some(3600), 7200), Some(3));
    assert_eq!(span_tickets(&products[1], 0b11, None, 7200), Some(1));
    let limited = ZoneProduct { transfers: 1, ..products[1] };
    assert_eq!(span_tickets(&limited, 0b11, None, 7200), None);
    assert_eq!(least_cap(&vec![bits(9.0), bits(4.0)]), Some(bits(4.0)));
    assert_eq!(least_cap(&vec![]), None);
    // A cap that is no number counts only alone, wherever it stands.
    let nan = bits(f64::NAN);
    assert_eq!(least_cap(&vec![nan, bits(1.0)]), Some(bits(1.0)));
    assert_eq!(least_cap(&vec![bits(1.0), nan]), Some(bits(1.0)));
    assert_eq!(least_cap(&vec![nan, nan]), Some(nan));
    assert_eq!(
        price_range(&vec![product(f64::NAN, 1), product(3.0, 1)]),
        Some((bits(3.0), bits(3.0)))
    );
}

#[test]
fn slots_are_priceable_near_zones() {
    let zones = vec![0, NO_FARE, NO_FARE];
    let walked = from_zoned(&zones, &vec![vec![1], vec![2], vec![]]);
    assert_eq!(walked, vec![false, true, false]);
    assert!(statically_priceable(&zones, &walked, &vec![(2, 0, 0), (1, 0, 0)]));
    assert!(!statically_priceable(&zones, &walked, &vec![(2, 0, 0)]));
    let targets = vec![vec![1], vec![], vec![]];
    assert!(seed_reach(&vec![(0, 5)], &targets, true, &vec![(1, 0, 0)]));
    assert!(!seed_reach(&vec![(0, 5)], &targets, false, &vec![(1, 0, 0)]));
}

#[test]
fn slots_climb_until_an_answer_holds() {
    let rows = vec![
        FoldRow { to: 0, fare: bits(2.0), seconds: 60 },
        FoldRow { to: 1, fare: bits(9.0), seconds: 70 },
        FoldRow { to: 2, fare: bits(f64::NAN), seconds: 80 },
    ];
    let mut bounds = working_bounds(&rows, &vec![0, 1, 2, 3], &vec![true, true, true, false], bits(2.0), bits(5.0));
    assert_eq!(
        bounds,
        vec![
            SlotBound::Closed,
            SlotBound::Warm { ceiling: bits(9.0), seed: 70 },
            SlotBound::Climbing { ceiling: bits(5.0) },
            SlotBound::Closed,
        ]
    );
    assert!(any_climbing(&bounds) && !all_closed(&bounds));
    let climbing = bounds[2];
    let next = apply_answer(climbing, Answer::Nothing, bits(5.0), bits(10.0), bits(8.0));
    assert_eq!(next, (SlotBound::Climbing { ceiling: bits(8.0) }, false));
    let capped = apply_answer(next.0, Answer::Nothing, bits(8.0), bits(16.0), bits(8.0));
    assert_eq!(capped, (SlotBound::Closed, false));
    let priced = apply_answer(climbing, Answer::Priced { fare: bits(4.0) }, bits(5.0), 0, bits(8.0));
    assert_eq!(priced, (SlotBound::Closed, true));
    assert_eq!(apply_answer(climbing, Answer::Seed, 0, 0, 0), (SlotBound::Closed, false));
    close_unreached(&mut bounds, &vec![vec![], vec![], vec![(0, 0, 0)], vec![]], &vec![None]);
    assert_eq!(bounds[2], SlotBound::Closed);
    let choices = refined_rows(&vec![true, false, false], &rows, &vec![0, 1, 7]);
    assert_eq!(choices, vec![RowChoice::Exact { slot: 0 }, RowChoice::Fold { row: 1 }]);
}

#[test]
fn winning_chains_sum_their_steps() {
    let edges = vec![vec![(1, 40)], vec![(2, 50)], vec![]];
    let steps = vec![
        ChainStep::Ride { trip: 0, board: 1, alight: 3, alight_stop: 1 },
        ChainStep::Walk { from: 1, to: 2 },
    ];
    let plan = chain_plan(
        1,
        &steps,
        &vec![(0, 5)],
        &None,
        &edges,
        &vec![(2, 30, 70)],
        30,
        &vec![bits(1.0)],
    );
    // The footpath to the first stop, the one between, the egress link.
    assert_eq!(plan.walk_meters, vec![40, 50, 70]);
    assert_eq!(plan.rides, vec![(0, 1, 3)]);
    assert_eq!((plan.access_stop, plan.egress_stop), (1, 1));
    assert!(plan.resolved);
    let unresolved =
        chain_plan(0, &steps, &vec![(0, 5)], &None, &edges, &vec![], 30, &vec![bits(f64::NAN)]);
    assert!(!unresolved.resolved);
    let nothing = chain_plan(0, &vec![], &vec![(0, 5)], &None, &edges, &vec![], 0, &vec![]);
    assert_eq!((nothing.access_stop, nothing.egress_stop), (NO_STOP, NO_STOP));
}
