use cafein::legs::NetworkIds;
use cafein::ids::{FeedId, Refusal, StopIndex};
use cafein::pareto::{pareto_insert, ParetoChoice};
use cafein::pareto_rows::{
    direct_frontiers, pareto_close, pareto_extensions, pareto_street_rows, GramRow,
};
use cafein::reduction::{
    reduce_street_choices, ModeRow, Snap, StreetCell, Transfer, TransferRows, Winner,
};
use cafein::street_legs::{
    direct_leg, metered_cells, reduced_choices, ride_edges, ride_leg, saved_tokens, stop_leg,
    LegPlan, RideToken,
};
use cafein::transfers::{
    align_rides, edge_list, mode_link_targets, set_transfer_arrays, set_transfers, stop_links,
    stop_rows, zero_coincident_stops, Footpath, FootpathArrays,
};
use std::collections::HashMap;

fn bits(value: f64) -> u64 {
    value.to_bits()
}

fn snap(edge: u32) -> Snap {
    Snap { edge, fraction: 0, connector: 0 }
}

fn cell(seconds: u32) -> Option<StreetCell> {
    Some(StreetCell { seconds, network_m: bits(seconds as f64), total_m: bits(seconds as f64) })
}

fn mode(cells: Vec<Option<StreetCell>>, rental: bool) -> ModeRow {
    let links = (0..cells.len() as u32).map(|edge| Some(snap(edge))).collect();
    ModeRow { cells, links, eligible: None, rental }
}

/// One transfer of ten seconds from the first stop to the second.
fn one_transfer() -> TransferRows {
    TransferRows {
        offsets: vec![0, 1, 1, 1],
        edges: vec![Transfer { to: 1, seconds: 10, meters: bits(8.0) }],
    }
}

#[test]
fn the_fastest_mode_wins_each_stop() {
    let walk = mode(vec![cell(50), cell(90), None], false);
    let bike = mode(vec![cell(50), cell(30), None], true);
    let empty = TransferRows { offsets: vec![0, 0, 0, 0], edges: vec![] };
    let best = reduce_street_choices(
        &vec![Some(walk), Some(bike)],
        &vec![false, false, false],
        &empty,
        None,
        false,
    )
    .unwrap();
    // A tie falls to the choice without a rental.
    assert_eq!(best[0].map(|w| (w.seconds, w.order, w.rentals)), Some((50, 0, 0)));
    assert_eq!(best[1].map(|w| (w.seconds, w.order, w.rentals)), Some((30, 1, 1)));
    assert_eq!(best[2], None);
}

#[test]
fn one_transfer_closes_the_reduction() {
    let rows = |cells| vec![Some(mode(cells, false))];
    let none = vec![false, false, false];
    let best = reduce_street_choices(
        &rows(vec![cell(50), cell(90), None]),
        &none,
        &one_transfer(),
        Some(&vec![true]),
        false,
    )
    .unwrap();
    let carried = best[1].unwrap();
    assert_eq!((carried.seconds, carried.via, carried.rentals), (60, Some(0), 1));
    assert!(carried.transfer_rental);
    assert_eq!(carried.walk_transfer_m, bits(8.0));
    // Egress follows the transfer backwards.
    let egress = reduce_street_choices(
        &rows(vec![None, cell(20), None]),
        &none,
        &one_transfer(),
        None,
        true,
    )
    .unwrap();
    assert_eq!(egress[0].map(|w| (w.seconds, w.via)), Some((30, Some(1))));
    // An excluded stop neither seeds nor receives.
    let excluded = reduce_street_choices(
        &rows(vec![cell(50), cell(90), None]),
        &vec![true, false, false],
        &one_transfer(),
        None,
        false,
    )
    .unwrap();
    assert_eq!(excluded[0], None);
    assert_eq!(excluded[1].map(|w| w.via), Some(None));
}

#[test]
fn masks_and_missing_rows_leave_modes_out() {
    let mut bike = mode(vec![cell(5), cell(5), cell(5)], true);
    bike.eligible = Some(vec![false, true, false]);
    let empty = TransferRows { offsets: vec![0, 0, 0, 0], edges: vec![] };
    let none = vec![false, false, false];
    let best = reduce_street_choices(&vec![None, Some(bike)], &none, &empty, None, false).unwrap();
    assert_eq!(best[0], None);
    assert_eq!(best[1].map(|w| w.order), Some(1));
    let error = reduce_street_choices(&vec![None], &none, &empty, None, false).unwrap_err();
    assert_eq!(
        error.message,
        "coordinate too far from the multimodal street network for every policy mode"
    );
}

fn winner(seconds: u32, rentals: u8, order: usize) -> Winner {
    Winner {
        seconds,
        rentals,
        transfer_rental: false,
        order,
        snap: snap(0),
        via: None,
        network_m: 0,
        total_m: 0,
        walk_transfer_m: 0,
    }
}

fn point(seconds: u32, grams: f64, rentals: u8, order: usize) -> ParetoChoice {
    ParetoChoice { winner: winner(seconds, rentals, order), grams: bits(grams), slot: None }
}

fn frontier(points: &[ParetoChoice]) -> Vec<(u32, f64)> {
    let mut held = Vec::new();
    for point in points {
        pareto_insert(&mut held, *point);
    }
    let mut seen: Vec<(u32, f64)> =
        held.iter().map(|p| (p.winner.seconds, f64::from_bits(p.grams))).collect();
    seen.sort_by_key(|entry| entry.0);
    seen
}

#[test]
fn frontiers_keep_what_nothing_beats() {
    let all = [point(60, 5.0, 0, 0), point(30, 9.0, 0, 1), point(70, 6.0, 0, 2), point(90, 1.0, 0, 3)];
    let expected = vec![(30, 9.0), (60, 5.0), (90, 1.0)];
    assert_eq!(frontier(&all), expected);
    let mut turned = all;
    turned.reverse();
    assert_eq!(frontier(&turned), expected);
    // With equal grams only the fastest stays.
    assert_eq!(frontier(&[point(60, 0.0, 0, 0), point(30, 0.0, 0, 1)]), vec![(30, 0.0)]);
}

#[test]
fn unresolved_grams_survive_only_where_fastest() {
    let slow = [point(60, f64::NAN, 0, 0), point(60, 4.0, 0, 1)];
    assert_eq!(frontier(&slow), vec![(60, 4.0)]);
    let fast = frontier(&[point(30, f64::NAN, 0, 0), point(60, 4.0, 0, 1)]);
    assert_eq!(fast.len(), 2);
    assert!(fast[0].1.is_nan());
    let mut held = vec![point(30, 2.0, 1, 0)];
    pareto_insert(&mut held, point(30, 2.0, 0, 1));
    assert_eq!(held, vec![point(30, 2.0, 0, 1)]);
    pareto_insert(&mut held, point(30, 2.0, 0, 2));
    assert_eq!(held.len(), 1);
}

#[test]
fn insertion_order_never_decides() {
    let carried = |slot: Option<usize>, via: Option<u32>, total: f64| ParetoChoice {
        winner: Winner { via, total_m: bits(total), ..winner(30, 0, 1) },
        grams: bits(2.0),
        slot,
    };
    // Ties on both criteria, rentals and mode: the direct choice goes first,
    // then the earlier transfer, then the lower stop, then the meters.
    let tied = [
        carried(Some(4), Some(3), 1.0),
        carried(Some(2), Some(7), 1.0),
        carried(Some(4), Some(2), 1.0),
        carried(None, None, 8.0),
        carried(None, None, 6.0),
    ];
    let last = |points: &[ParetoChoice]| {
        let mut held = Vec::new();
        for point in points {
            pareto_insert(&mut held, *point);
        }
        held
    };
    for turn in 0..tied.len() {
        let mut turned = tied;
        turned.rotate_left(turn);
        assert_eq!(last(&turned), vec![carried(None, None, 6.0)]);
        turned.reverse();
        assert_eq!(last(&turned), vec![carried(None, None, 6.0)]);
    }
    assert_eq!(last(&tied[0..2]), vec![carried(Some(2), Some(7), 1.0)]);
    assert_eq!(last(&[tied[1], tied[0]]), vec![carried(Some(2), Some(7), 1.0)]);
    assert_eq!(last(&[tied[0], tied[2]]), vec![carried(Some(4), Some(2), 1.0)]);
    // Zeros of either sign weigh the same; their bits settle the tie.
    let zero = point(30, 0.0, 0, 0);
    let negative = point(30, -0.0, 0, 0);
    assert_eq!(last(&[zero, negative]), last(&[negative, zero]));
}

/// Every stop of a triangle with a transfer to the first one.
fn into_the_first() -> TransferRows {
    let to = |to| Transfer { to, seconds: 10, meters: bits(8.0) };
    TransferRows { offsets: vec![0, 2, 3, 4], edges: vec![to(2), to(1), to(0), to(0)] }
}

#[test]
fn the_first_of_equal_choices_is_kept() {
    let rows = vec![Some(mode(vec![cell(500), cell(20), cell(20)], false))];
    let open = vec![false, false, false];
    let reduce = |egress| {
        reduce_street_choices(&rows, &open, &into_the_first(), None, egress).unwrap()[0].unwrap()
    };
    // Both of the other stops carry the first one in thirty seconds. Access
    // meets the second stop's transfer first; egress meets the transfers of
    // the first stop, and the third stop's is listed before the second's.
    let access = reduce(false);
    assert_eq!((access.seconds, access.via, access.snap), (30, Some(1), snap(1)));
    let egress = reduce(true);
    assert_eq!((egress.seconds, egress.via, egress.snap), (30, Some(2), snap(2)));
}

#[test]
fn zero_factors_leave_the_reduced_rows() {
    let cells = || vec![cell(500), cell(20), cell(20)];
    let gram_rows = || {
        let clean = |row, walk| Some(GramRow { row, walk, grams: vec![0, 0, 0] });
        vec![clean(mode(cells(), false), true), None, clean(mode(cells(), true), false)]
    };
    let untracked = |mut row: ModeRow| {
        for cell in row.cells.iter_mut().flatten() {
            (cell.network_m, cell.total_m) = (0, 0);
        }
        Some(row)
    };
    let excluded = vec![false, false, false];
    let transfers = into_the_first();
    for egress in [false, true] {
        let seeds = direct_frontiers(&gram_rows(), &excluded).unwrap();
        let extensions = pareto_extensions(&seeds, &excluded, &transfers, egress);
        let grams = vec![0; extensions.len()];
        let closed = pareto_close(&seeds, &transfers, None, &extensions, &grams);
        let rows = pareto_street_rows(&closed);
        let plain =
            vec![untracked(mode(cells(), false)), None, untracked(mode(cells(), true))];
        let best = reduce_street_choices(&plain, &excluded, &transfers, None, egress).unwrap();
        let kept = reduced_choices(&best, &HashMap::new(), &vec![], egress);
        assert_eq!(rows.len(), kept.len());
        for ((stop, point), choice) in rows.iter().zip(&kept) {
            assert_eq!((*stop, point.grams), (choice.stop, 0));
            let bare = Winner { network_m: 0, total_m: 0, ..point.winner };
            assert_eq!(bare, choice.winner);
        }
        // Both of the other stops reach the first in the same time, and the
        // transfer that is met first is kept.
        let via = if egress { 2 } else { 1 };
        assert_eq!((rows[0].1.winner.seconds, rows[0].1.winner.via), (30, Some(via)));
    }
}

#[test]
fn pareto_rows_close_under_one_transfer() {
    let walk = GramRow {
        row: mode(vec![cell(50), None, None], false),
        walk: true,
        grams: vec![bits(9.0), bits(9.0), bits(9.0)],
    };
    let bike = GramRow {
        row: mode(vec![cell(20), None, None], true),
        walk: false,
        grams: vec![bits(3.0), 0, 0],
    };
    let excluded = vec![false, false, false];
    let seeds = direct_frontiers(&vec![Some(walk), Some(bike)], &excluded).unwrap();
    // Walking rides free whatever its row says.
    assert_eq!(seeds[0].len(), 2);
    let transfers = one_transfer();
    let extensions = pareto_extensions(&seeds, &excluded, &transfers, false);
    assert_eq!(extensions.len(), 2);
    assert!(extensions.iter().all(|e| e.source == 0 && e.target == 1));
    let grams = extensions
        .iter()
        .map(|e| seeds[e.source][e.point].grams)
        .collect::<Vec<u64>>();
    let closed = pareto_close(&seeds, &transfers, None, &extensions, &grams);
    let rows = pareto_street_rows(&closed);
    let seen: Vec<(u32, u32, f64)> =
        rows.iter().map(|(stop, p)| (*stop, p.winner.seconds, f64::from_bits(p.grams))).collect();
    assert_eq!(seen, vec![(0, 20, 3.0), (0, 50, 0.0), (1, 30, 3.0), (1, 60, 0.0)]);
    assert_eq!(rows[2].1.winner.via, Some(0));
    assert!(direct_frontiers(&vec![None], &excluded).is_err());
}

fn index() -> StopIndex {
    let stops = vec![
        FeedId { feed: 0, id: "a".to_string() },
        FeedId { feed: 0, id: "b".to_string() },
    ];
    StopIndex::new(&stops, 1)
}

fn footpath(from: &str, to: &str, meters: f64) -> Footpath {
    Footpath { from: from.to_string(), to: to.to_string(), seconds: 60, meters: bits(meters) }
}

#[test]
fn footpaths_are_resolved_and_checked() {
    let edges = set_transfers(&index(), &vec![footpath("b", "a", 40.0)]).unwrap();
    assert_eq!((edges[0].from, edges[0].to, edges[0].seconds), (1, 0, 60));
    match set_transfers(&index(), &vec![footpath("a", "b", 1.0), footpath("x", "b", -1.0)]) {
        Err(Refusal::Value(error)) => {
            assert_eq!(error.message, "footpath 1 has a negative or non-finite length");
        }
        _ => panic!("the length decides before the stops"),
    }
    match set_transfers(&index(), &vec![footpath("x", "b", 1.0)]) {
        Err(Refusal::Key(error)) => assert_eq!(error.message, "unknown stop_id 'x'"),
        _ => panic!("an unknown stop"),
    }
    let arrays = |to: Vec<u32>, meters: f64| FootpathArrays {
        from_index: vec![0],
        to_index: to,
        seconds: vec![60],
        meters: vec![bits(meters)],
    };
    let edges = set_transfer_arrays(&vec![5, 7], &arrays(vec![1], 3.0)).unwrap();
    assert_eq!((edges[0].from, edges[0].to), (5, 7));
    assert_eq!(
        set_transfer_arrays(&vec![5, 7], &arrays(vec![2], 3.0)).unwrap_err().message,
        "footpath 0 references a position outside stop_ids"
    );
    assert_eq!(
        set_transfer_arrays(&vec![5, 7], &arrays(vec![], 3.0)).unwrap_err().message,
        "footpath arrays must all have the same length"
    );
    assert_eq!(
        set_transfer_arrays(&vec![5, 7], &arrays(vec![1], f64::NAN)).unwrap_err().message,
        "footpath 0 has a negative or non-finite length"
    );
}

#[test]
fn tokens_are_saved_by_their_stop_pairs() {
    let token = |pickup| RideToken {
        pickup,
        drop: 1,
        seconds: 60,
        network_meters: bits(100.0),
        total_meters: bits(110.0),
        pre_seconds: 5,
        post_seconds: 6,
    };
    let key = |from: u64, to: u64| from << 32 | to;
    let listed =
        vec![(key(2, 0), token(7)), (key(0, 3), token(8)), (key(0, 1), token(9)), (key(1, 5), token(4))];
    let saved = saved_tokens(&listed);
    let keys: Vec<u64> = saved.iter().map(|(key, _)| *key).collect();
    assert_eq!(keys, vec![key(0, 1), key(0, 3), key(1, 5), key(2, 0)]);
    assert_eq!(saved[0].1.pickup, 9);
    let mut turned = listed;
    turned.reverse();
    assert_eq!(saved_tokens(&turned), saved);
    assert!(saved_tokens(&vec![]).is_empty());
}

#[test]
fn rides_align_with_their_edges() {
    let transfers = TransferRows {
        offsets: vec![0, 2, 3],
        edges: vec![
            Transfer { to: 0, seconds: 1, meters: 0 },
            Transfer { to: 1, seconds: 2, meters: 0 },
            Transfer { to: 0, seconds: 3, meters: 0 },
        ],
    };
    let mut rides = HashMap::new();
    rides.insert(1, bits(70.0));
    // The other direction is another pair.
    let (flags, meters) = align_rides(&transfers, &rides, 2);
    assert_eq!(flags, vec![false, true, false]);
    assert_eq!(meters, vec![0, bits(70.0), 0]);
    let ids = NetworkIds {
        feed_count: 1,
        stops: vec![
            FeedId { feed: 0, id: "a".to_string() },
            FeedId { feed: 0, id: "b".to_string() },
        ],
        trips: vec![],
        routes: vec![],
    };
    let listed = edge_list(&transfers, &ids);
    assert_eq!(listed[2], ("b".to_string(), "a".to_string(), 3, 0));
}

#[test]
fn stop_links_merge_equal_snaps() {
    let links = stop_links(&vec![(Some(snap(1)), 1), (Some(snap(2)), 2), (Some(snap(1)), 4), (None, 8)]);
    assert_eq!(links, vec![(snap(1), 5), (snap(2), 2)]);
    assert_eq!(mode_link_targets(&vec![links, vec![]], 4), vec![Some(snap(1)), None]);
    let places = vec![Some((bits(60.0), bits(25.0))), Some((bits(60.0), bits(25.0))), None];
    let at = (bits(60.0), bits(25.0));
    let joined = vec![Some(snap(0)), None, Some(snap(1))];
    let mut row = vec![Some(9), Some(9), None];
    zero_coincident_stops(&mut row, 0, &joined, &places, at, bits(100.0));
    assert_eq!(row, vec![Some(0), Some(9), None]);
    let mut unadmitted = vec![Some(9), Some(9), None];
    zero_coincident_stops(&mut unadmitted, 0, &joined, &places, at, bits(-1.0));
    assert_eq!(unadmitted, vec![Some(9), Some(9), None]);
    assert_eq!(stop_rows(&row, &joined), vec![(0, 0, snap(0))]);
}

#[test]
fn street_legs_run_between_their_ends() {
    let here = (bits(60.0), bits(25.0));
    let there = (bits(61.0), bits(25.0));
    let access = stop_leg(here, Some(snap(1)), Some(there), snap(2), false).unwrap();
    let egress = stop_leg(here, Some(snap(1)), Some(there), snap(2), true).unwrap();
    match (access, egress) {
        (LegPlan::Search { from, to }, LegPlan::Search { from: back_from, to: back_to }) => {
            assert_eq!((from.at, from.snap), (here, snap(1)));
            assert_eq!((to.at, to.snap), (there, snap(2)));
            assert_eq!((back_from.at, back_to.at), (there, here));
        }
        _ => panic!("two searches"),
    }
    assert!(matches!(stop_leg(here, None, Some(here), snap(2), true), Ok(LegPlan::Zero)));
    assert_eq!(
        stop_leg(here, None, None, snap(2), true).unwrap_err().message,
        "the stop has no coordinates to rebuild the street leg from"
    );
    assert_eq!(
        stop_leg(here, None, Some(there), snap(2), true).unwrap_err().message,
        "coordinate too far from the multimodal street network"
    );
    assert!(matches!(direct_leg(here, here, None, None), Some(LegPlan::Zero)));
    assert!(direct_leg(here, there, Some(snap(0)), None).is_none());
    assert!(direct_leg(here, there, Some(snap(0)), Some(snap(1))).is_some());
}

fn token() -> RideToken {
    RideToken {
        pickup: 0,
        drop: 1,
        seconds: 60,
        network_meters: bits(300.0),
        total_meters: bits(310.0),
        pre_seconds: 5,
        post_seconds: 6,
    }
}

#[test]
fn rides_are_listed_and_kept() {
    let places = vec![Some((1, 2)), Some((3, 4))];
    let ends = ride_leg(token(), &vec![Some(snap(7)), Some(snap(8))], &places).unwrap();
    assert_eq!((ends.0.at, ends.1.snap), ((1, 2), snap(8)));
    assert!(ride_leg(token(), &vec![Some(snap(7)), None], &places).is_none());
    let row = metered_cells(
        &vec![Some((5, 50)), Some((6, 60)), Some((7, 70))],
        &vec![Some(snap(0)), None, Some(snap(1))],
        &vec![55, 66, 77],
    );
    assert_eq!(row[0], Some(StreetCell { seconds: 5, network_m: 50, total_m: 55 }));
    assert_eq!(row[1], None);
    let rides = ride_edges(0, &row);
    assert_eq!(rides.len(), 1);
    assert_eq!((rides[0].to, rides[0].seconds, rides[0].total_meters), (2, 7, 77));
    let carried = Winner { via: Some(1), transfer_rental: true, ..winner(40, 1, 0) };
    let mut positions = HashMap::new();
    // From the second stop to the first.
    positions.insert(1u64 << 32, 0);
    let kept = reduced_choices(&vec![Some(carried), None], &positions, &vec![token()], false);
    assert_eq!(kept.len(), 1);
    assert_eq!((kept[0].stop, kept[0].ride), (0, Some(token())));
    let other = reduced_choices(&vec![Some(carried), None], &positions, &vec![token()], true);
    assert_eq!(other[0].ride, None);
}
