use cafein::accessibility::{
    aggregation_error, amount_costs, directed_seeds, field_columns, nearest_plan, nearest_rows,
    parse_decay, target_costs, time_costs, validated_aggregation, walk_seeds, AggregationFault,
    Decay,
};
use cafein::arrive_by::{
    arrive_by_access_cell, arrive_by_access_matrix, arrive_by_durations, arrive_by_point_cell,
    arrive_by_stop_cell, arrive_by_stop_durations, arrive_by_winner, AccessArrival, Arrival,
    ReverseState,
};
use cafein::costs::{
    choose_located, cost_rows_dict, merge_direct_walk_cells, rekey_rows, with_walks, CostRow,
    Objective, WalkRule, UNKNOWN, ZERO,
};
use cafein::links::{
    door_egress, egress_tables, final_egress, fold_final_transfers, locate, matrix_direct_walks,
    matrix_location_access, matrix_street_egress, request_offsets, unsnapped, WalkedStop,
};
use cafein::one_to_all::reverse_times;
use cafein::reaches::{
    arrive_by_access_column, arrive_by_column, arrive_by_nearest, arrive_by_nearest_point,
    arrive_by_point_column, arrive_by_reaches, percentile_durations, percentile_winner,
    ranked_durations, union_egress, Reach, TaggedState,
};
use cafein::reduction::Snap;
use cafein::rows::{merge_rows, partition, transposed, transposed_planes};
use cafein::street_costs::{
    cost_matrix, cost_row, metered_costs, same_place_time, snap_endpoint, street_time_matrix,
    unsnapped_points, StreetCost,
};
use cafein::time_rows::{
    cap_by_walk, reached_times, travel_time_matrix, travel_time_matrix_from_points, UNREACHABLE,
};

fn bits(value: f64) -> u64 {
    value.to_bits()
}

fn snap(edge: u32) -> Snap {
    Snap { edge, fraction: 0, connector: 0 }
}

fn walked(stop: u32, seconds: u32, meters: u64) -> WalkedStop {
    WalkedStop { stop, seconds, meters }
}

fn state(round: u16, departure: u32, achieved: u32) -> ReverseState {
    ReverseState { round, departure, achieved }
}

#[test]
fn columns_turn_into_rows() {
    assert_eq!(transposed(&vec![vec![1, 2], vec![3, 4], vec![5, 6]], 2), vec![1, 3, 5, 2, 4, 6]);
    // Two planes per cell stay together.
    let planes = transposed_planes(&vec![vec![1, 2, 3, 4], vec![5, 6, 7, 8]], 2, 2);
    assert_eq!(planes, vec![1, 2, 5, 6, 3, 4, 7, 8]);
    let flags = vec![true, false, true];
    assert_eq!(partition(&flags), (vec![0, 2], vec![1]));
    let merged = merge_rows(&flags, vec![vec!['a'], vec!['c']], vec![vec!['b']]);
    assert_eq!(merged, vec![vec!['a'], vec!['b'], vec!['c']]);
}

#[test]
fn arrival_rows_become_times() {
    let rows = vec![vec![Some(100), None], vec![Some(130), Some(100)]];
    assert_eq!(travel_time_matrix(&rows, 100), vec![0, UNREACHABLE, 30, 0]);
    assert_eq!(reached_times(&rows[0], 40), vec![(0, 60)]);
    assert_eq!(target_costs(&rows[0], &vec![1, 0, 0], 90), vec![None, Some(10), Some(10)]);
}

#[test]
fn point_cells_take_the_earliest_way() {
    let rows = vec![vec![Some(100), Some(110), None]];
    let egress = vec![vec![(0, 50, 0), (1, 20, 0)], vec![(2, 1, 0)], vec![]];
    let walk = vec![vec![None, Some((70, 0)), None]];
    assert_eq!(
        travel_time_matrix_from_points(&rows, &egress, &walk, 100),
        vec![30, 70, UNREACHABLE]
    );
    let overflow = vec![vec![Some(u32::MAX - 1)]];
    let far = travel_time_matrix_from_points(&overflow, &vec![vec![(0, 1, 0)]], &vec![vec![None]], 0);
    assert_eq!(far, vec![UNREACHABLE]);
    let mut flat = vec![90, 40, UNREACHABLE, UNREACHABLE];
    cap_by_walk(&mut flat, &vec![vec![Some((60, 0)), Some((10, 0))]], 2, 2);
    assert_eq!(flat, vec![60, 40, 10, 10]);
}

#[test]
fn final_walks_shorten_arrivals() {
    let links = vec![Some(vec![walked(0, 30, 7), walked(1, 5, 2)]), None];
    assert_eq!(unsnapped(&links), vec![1]);
    assert_eq!(request_offsets(links[0].as_ref().unwrap()), vec![(0, 30), (1, 5)]);
    assert_eq!(egress_tables(&links), vec![vec![(0, 30, 7), (1, 5, 2)], vec![]]);
    let located = locate(&vec![None, Some((1, 2)), Some((3, 4))]);
    assert_eq!(located.points, vec![(1, 2), (3, 4)]);
    assert_eq!(located.slots, vec![None, Some(0), Some(1)]);
    let egress = final_egress(&vec![None, Some(0)], &links);
    assert_eq!(egress, vec![None, Some(vec![(0, 30), (1, 5)])]);
    let mut arrivals = vec![Some(100), Some(200)];
    fold_final_transfers(&mut arrivals, &egress);
    // The second stop is walked to from the first; the first, which no
    // street meets, keeps its own arrival.
    assert_eq!(arrivals, vec![Some(100), Some(130)]);
    // Only the arrivals as they came are walked from, and stops past the
    // end of the list keep theirs.
    let mut longer = vec![Some(100), Some(200), Some(300), None];
    fold_final_transfers(&mut longer, &vec![Some(vec![(1, 7)]), Some(vec![(0, 5), (3, 1)])]);
    assert_eq!(longer, vec![Some(207), Some(105), Some(300), None]);
    let mut late = vec![Some(u32::MAX - 5)];
    fold_final_transfers(&mut late, &vec![Some(vec![(0, 5), (0, 6)])]);
    assert_eq!(late, vec![None]);
    let mut unreached = vec![Some(9)];
    fold_final_transfers(&mut unreached, &vec![Some(vec![])]);
    assert_eq!(unreached, vec![None]);
}

#[test]
fn matrices_link_their_stops() {
    let links = vec![Some(vec![walked(2, 30, 7)])];
    let map = matrix_street_egress(3, &vec![0, 1], &vec![Some(0), None], &links);
    assert_eq!(map, vec![vec![], vec![(1, 0, 0)], vec![(0, 30, 7)]]);
    let (access, located) = matrix_location_access(&vec![0, 1], &vec![Some(0), None], &links);
    assert_eq!(access, vec![vec![(2, 30, 7)], vec![(1, 0, 0)]]);
    assert_eq!(located, vec![true, false]);
    let walks = vec![vec![Some((9, 4)), None]];
    let direct = matrix_direct_walks(&vec![Some(0), None], &vec![Some(1), Some(0)], &walks);
    assert_eq!(direct, vec![vec![(1, 9, 4)], vec![]]);
}

#[test]
fn the_latest_journey_wins_by_a_deadline() {
    let mut best = None;
    let late = Arrival { departure: 50, rides: 2, achieved: 90 };
    arrive_by_winner(&mut best, Arrival { departure: 40, rides: 0, achieved: 60 });
    arrive_by_winner(&mut best, late);
    arrive_by_winner(&mut best, Arrival { departure: 50, rides: 3, achieved: 60 });
    arrive_by_winner(&mut best, Arrival { departure: 50, rides: 2, achieved: 95 });
    assert_eq!(best, Some(late));
    let states = vec![state(1, 40, 90), state(2, 50, 95)];
    assert_eq!(arrive_by_stop_cell(&states, false, 100), 45);
    assert_eq!(arrive_by_stop_cell(&states, true, 100), 0);
    assert_eq!(arrive_by_stop_cell(&vec![], false, 100), UNREACHABLE);
}

#[test]
fn point_cells_compose_access_and_walk() {
    let states = vec![vec![state(1, 50, 90)], vec![state(1, 60, 95)]];
    let links = vec![(0, 5, 0), (1, 20, 0)];
    assert_eq!(arrive_by_point_cell(&links, &states, None, 100), 45);
    // The walk leaves at seventy and arrives at the deadline.
    assert_eq!(arrive_by_point_cell(&links, &states, Some((30, 0)), 100), 30);
    // A walk longer than the day so far cannot be placed.
    assert_eq!(arrive_by_point_cell(&vec![], &states, Some((101, 0)), 100), UNREACHABLE);
    let profiles = vec![(5, vec![vec![state(1, 50, 90)], vec![]])];
    assert_eq!(arrive_by_durations(&profiles, &vec![100, 110], Some((60, 0))), vec![45, 60]);
    let durations = arrive_by_stop_durations(&vec![vec![state(1, 50, 90)], vec![]], &vec![100, 110], false);
    assert_eq!(durations, vec![40, UNREACHABLE]);
}

#[test]
fn access_matrices_name_the_access_stop() {
    let states = vec![vec![state(1, 50, 90)], vec![state(1, 50, 90)]];
    let access = vec![(0, 10), (1, 10)];
    let best = arrive_by_access_cell(&access, &states, &vec![], 100).unwrap();
    assert_eq!((best.departure, best.achieved, best.rides), (40, 90, 1));
    let columns = vec![vec![Some(best), None]];
    let matrix = arrive_by_access_matrix(&columns, 2);
    assert_eq!(matrix.departures[0], 40);
    assert_eq!(matrix.durations, vec![50, UNREACHABLE]);
    assert_eq!(matrix.access_stops[0], best.stop);
    let cells = arrive_by_access_column(&vec![access], &states, &vec![], 100);
    assert_eq!(cells, vec![Some(AccessArrival { departure: 40, rides: 1, achieved: 90, stop: best.stop })]);
}

#[test]
fn columns_and_reaches_read_the_reverse_run() {
    let states = vec![vec![state(1, 50, 90)], vec![], vec![state(0, 80, 80)]];
    assert_eq!(arrive_by_column(&states, &vec![0, 1, 2], 1, false, 100), vec![40, 0, 0]);
    assert_eq!(arrive_by_column(&states, &vec![0, 1], 1, true, 100), vec![40, UNREACHABLE]);
    let access = vec![vec![(0, 5, 0)], vec![]];
    let walk = vec![vec![None], vec![Some((12, 0))]];
    assert_eq!(arrive_by_point_column(&access, &states, &walk, 0, 100), vec![45, 12]);
    assert_eq!(
        arrive_by_reaches(&states),
        vec![
            Reach { stop: 0, departure: 50, rides: 1, achieved: 90 },
            Reach { stop: 2, departure: 80, rides: 0, achieved: 80 },
        ]
    );
}

#[test]
fn percentiles_rank_unreachable_marks() {
    assert_eq!(ranked_durations(vec![9, UNREACHABLE, 3, 3]), vec![3, 3, 9, UNREACHABLE]);
    let profile = vec![vec![state(1, 50, 90)], vec![], vec![state(1, 70, 90), state(2, 70, 85)]];
    assert_eq!(percentile_durations(&profile, &vec![100, 110, 120]), vec![20, 40, UNREACHABLE]);
    assert_eq!(
        percentile_winner(&profile, 40),
        Some(Arrival { departure: 50, rides: 1, achieved: 90 })
    );
    assert_eq!(percentile_winner(&profile, UNREACHABLE), None);
}

#[test]
fn the_nearest_destination_takes_least() {
    let tagged = |departure, achieved, seed| TaggedState { round: 1, departure, achieved, seed };
    let states = vec![tagged(50, 90, 0), tagged(60, 95, 1)];
    assert_eq!(arrive_by_nearest(&states, &vec![7, 8], &vec![false, false], 3, 100), Some((35, 1)));
    // An origin that is a destination is there.
    let own = arrive_by_nearest(&states, &vec![7, 8], &vec![false, false], 7, 100);
    assert_eq!(own, Some((0, 0)));
    assert_eq!(arrive_by_nearest(&vec![], &vec![7], &vec![false], 3, 100), None);
    let cell = arrive_by_nearest_point(&vec![(0, 5, 0)], &vec![states], &vec![None, None], 100);
    assert_eq!(cell, (40, 1));
    let nowhere = arrive_by_nearest_point(&vec![], &vec![], &vec![None], 100);
    assert_eq!(nowhere, (UNREACHABLE, 0));
    let links = vec![Some(vec![walked(4, 10, 0)]), None, Some(vec![walked(4, 8, 0)])];
    assert_eq!(union_egress(&links), (vec![(4, 10), (4, 8)], vec![0, 2]));
}

fn row(to: u32, seconds: u32, rides: u32, grams: f64) -> CostRow {
    CostRow {
        to,
        seconds,
        rides,
        transit_meters: bits(100.0),
        walk_meters: ZERO,
        emission_grams: bits(grams),
        fare: bits(2.0),
        geometry: None,
    }
}

#[test]
fn walks_take_the_cells_they_beat() {
    let rows = vec![row(1, 60, 1, 5.0), row(0, 30, 1, 5.0)];
    let walk = vec![Some((40, bits(50.0))), Some((60, bits(80.0))), Some((90, bits(99.0)))];
    let (cells, flags) = with_walks(WalkRule::Fastest, rows, &walk, true);
    let seen: Vec<(u32, u32, u32)> = cells.iter().map(|c| (c.to, c.seconds, c.rides)).collect();
    assert_eq!(seen, vec![(0, 30, 1), (1, 60, 0), (2, 90, 0)]);
    assert_eq!(flags, vec![false, true, true]);
    assert_eq!((cells[1].emission_grams, cells[1].fare), (ZERO, ZERO));
    // Walking is free, so it takes a dearer cell within the budget.
    let rule = WalkRule::LeastCost(Objective::Emissions, Some(50));
    let (cells, flags) = with_walks(rule, vec![row(0, 30, 1, 5.0), row(1, 20, 1, 5.0)], &walk, false);
    assert_eq!(flags, vec![true, false]);
    assert_eq!((cells[0].seconds, cells[0].fare), (40, UNKNOWN));
    assert_eq!(cells.len(), 2);
}

#[test]
fn direct_walks_merge_into_rows() {
    let mut cells = vec![row(7, 60, 1, 5.0)];
    merge_direct_walk_cells(&mut cells, &vec![(0, 90, 3), (1, 10, 2)], &vec![7, 9], Some(60), true);
    assert_eq!(cells.len(), 2);
    assert_eq!((cells[0].to, cells[0].rides), (7, 1));
    assert_eq!((cells[1].to, cells[1].seconds, cells[1].walk_meters), (9, 10, 2));
    let mut keyed = vec![row(1, 60, 1, 5.0)];
    rekey_rows(&mut keyed, &vec![4, 5]);
    assert_eq!(keyed[0].to, 5);
    let rows = choose_located(vec![vec![1], vec![2]], vec![vec![3], vec![4]], &vec![true, false]);
    assert_eq!(rows, vec![vec![1], vec![4]]);
}

#[test]
fn cost_rows_flatten_into_columns() {
    let mut drawn = row(1, 60, 1, 5.0);
    drawn.geometry = Some(vec![9, 9]);
    let columns = cost_rows_dict(vec![vec![drawn], vec![row(0, 30, 2, 7.0)]], true);
    assert_eq!(columns.from, vec![0, 1]);
    assert_eq!(columns.to, vec![1, 0]);
    assert_eq!(columns.travel_time, vec![60, 30]);
    assert_eq!(columns.rides, vec![1, 2]);
    assert_eq!(columns.emissions, vec![bits(5.0), bits(7.0)]);
    assert_eq!(columns.geometry, Some(vec![Some(vec![9, 9]), None]));
    assert!(cost_rows_dict(vec![], false).geometry.is_none());
}

#[test]
fn street_costs_read_in_long_format() {
    let cell = |seconds| Some(StreetCost { seconds, network_meters: 1, connector_meters: 2, point: false });
    let here = (bits(60.0), bits(25.0));
    let there = (bits(61.0), bits(25.0));
    let mut first = vec![cell(44), cell(5)];
    cost_row(&mut first, true, here, &vec![here, there], &vec![true, true], bits(60.0));
    assert_eq!(first[0].unwrap().seconds, 0);
    assert!(first[0].unwrap().point);
    assert_eq!(first[1], cell(5));
    let mut unsnapped_row = vec![cell(44), cell(5)];
    cost_row(&mut unsnapped_row, false, here, &vec![here, there], &vec![true, true], bits(60.0));
    assert_eq!(unsnapped_row, vec![None, None]);
    // A cutoff that admits nothing leaves even the own coordinate out.
    let mut nothing = vec![None];
    cost_row(&mut nothing, true, here, &vec![here], &vec![true], bits(-1.0));
    assert_eq!(nothing, vec![None]);
    let long = cost_matrix(&vec![first, unsnapped_row]);
    let pairs: Vec<(u32, u32)> = long.iter().map(|c| (c.0, c.1)).collect();
    assert_eq!(pairs, vec![(0, 0), (0, 1)]);
    let metered = metered_costs(&vec![Some((9, 8)), Some((9, 8)), None], &vec![Some(7), None, Some(7)]);
    assert_eq!(metered[0].unwrap().connector_meters, 7);
    assert_eq!(metered[1..], [None, None]);
}

#[test]
fn street_times_and_snaps() {
    let here = (bits(60.0), bits(25.0));
    assert_eq!(same_place_time(here, here, bits(0.0)), Some(Some(0)));
    assert_eq!(same_place_time(here, here, bits(f64::NAN)), Some(None));
    assert_eq!(same_place_time(here, (bits(61.0), bits(25.0)), 0), None);
    assert_eq!(
        street_time_matrix(&vec![vec![Some(3), None], vec![None, Some(4)]]),
        vec![3, UNREACHABLE, UNREACHABLE, 4]
    );
    assert_eq!(unsnapped_points(&vec![None, Some(snap(0)), None]), vec![0, 2]);
    assert_eq!(snap_endpoint(Some(snap(3)), "origin", "1", "2", "3", "walk").unwrap(), snap(3));
    assert_eq!(
        snap_endpoint(None, "origin", "60.1", "24.9", "1600", "car").unwrap_err().message,
        "the origin (60.1, 24.9) is farther than 1600 m from any street 'car' can use"
    );
}

#[test]
fn decays_take_their_parameter() {
    assert_eq!(parse_decay("step", None, "").unwrap(), Decay::Step);
    assert_eq!(
        parse_decay("linear", Some(bits(60.0)), "60.0").unwrap(),
        Decay::Linear { width: bits(60.0) }
    );
    assert_eq!(
        parse_decay("exponential", Some(bits(1.0)), "1.0").unwrap(),
        Decay::Exponential { half_life: bits(1.0) }
    );
    assert_eq!(
        parse_decay("step", Some(bits(1.0)), "1.0").unwrap_err().message,
        "decay='step' takes no decay_param"
    );
    assert_eq!(
        parse_decay("logistic", None, "").unwrap_err().message,
        "decay=\"logistic\" requires decay_param (scale), a positive finite number"
    );
    assert_eq!(
        parse_decay("exponential", Some(bits(-2.0)), "-2.0").unwrap_err().message,
        "decay_param (half_life) must be a positive finite number, not -2.0"
    );
    assert_eq!(
        parse_decay("cubic", None, "").unwrap_err().message,
        "unknown decay \"cubic\": the decay functions are step, linear, exponential, logistic"
    );
}

#[test]
fn aggregations_fit_their_destinations() {
    let one = bits(1.0);
    assert!(validated_aggregation(2, &[one, 0], 1, &[one]).is_ok());
    let fault = |result: Result<(), AggregationFault>| aggregation_error(result.unwrap_err(), "-1.0").message;
    assert_eq!(fault(validated_aggregation(2, &[], 0, &[])), "fields must be at least 1");
    assert_eq!(
        fault(validated_aggregation(usize::MAX, &[], 2, &[])),
        "destinations * fields overflows"
    );
    assert_eq!(
        fault(validated_aggregation(0, &[], usize::MAX, &[one, one])),
        "budgets * fields overflows"
    );
    assert_eq!(
        fault(validated_aggregation(2, &[one], 1, &[one])),
        "opportunities carries 1 values, expected destinations * fields = 2"
    );
    assert_eq!(
        fault(validated_aggregation(1, &[one], 1, &[])),
        "budgets must name at least one cutoff"
    );
    assert_eq!(
        fault(validated_aggregation(1, &[one], 1, &[one, bits(-1.0)])),
        "budgets must be positive finite numbers, not -1.0"
    );
    assert_eq!(
        fault(validated_aggregation(1, &[bits(-1.0)], 1, &[one])),
        "opportunity values must be finite and non-negative, not -1.0"
    );
    assert_eq!(
        validated_aggregation(2, &[0, bits(f64::NAN)], 1, &[one]),
        Err(AggregationFault::Opportunity { index: 1 })
    );
    assert_eq!(time_costs(&[5, UNREACHABLE]), vec![Some(5), None]);
    assert_eq!(amount_costs(&[one, bits(f64::INFINITY)]), vec![Some(one), None]);
}

#[test]
fn nearest_ranks_are_padded() {
    let plan = nearest_plan(3, 5, None, "").unwrap();
    assert_eq!(plan.ranks, 3);
    assert!(f64::from_bits(plan.horizon).is_infinite());
    assert_eq!(nearest_plan(3, 2, Some(bits(9.0)), "9.0").unwrap().horizon, bits(9.0));
    assert_eq!(nearest_plan(3, 0, None, "").unwrap_err().message, "k must be at least 1");
    assert_eq!(
        nearest_plan(3, 1, Some(bits(0.0)), "0.0").unwrap_err().message,
        "max_cost must be a positive finite number, not 0.0"
    );
    // Without columns the horizon is not looked at.
    assert_eq!(nearest_plan(0, 1, Some(bits(0.0)), "0.0").unwrap().ranks, 0);
    let (indices, costs) = nearest_rows(&vec![vec![(2, bits(5.0))], vec![]], 2);
    assert_eq!(indices, vec![2, -1, -1, -1]);
    assert_eq!(costs[0], bits(5.0));
    assert!(costs[1..].iter().all(|cost| f64::from_bits(*cost).is_nan()));
}

#[test]
fn catchments_seed_and_place_their_field() {
    let positions = vec![(bits(25.0), bits(60.0)), (bits(f64::NAN), bits(60.0))];
    let field = field_columns(&vec![(1, 7), (0, 9)], &positions);
    assert_eq!(field.latitudes, vec![bits(60.0)]);
    assert_eq!(field.longitudes, vec![bits(25.0)]);
    assert_eq!(field.costs, vec![9]);
    let seeds = walk_seeds(Some(snap(0)), 0u64, &vec![5, 6], &vec![vec![snap(1), snap(2)], vec![]]);
    assert_eq!(seeds, vec![(snap(0), 0), (snap(1), 5), (snap(2), 5)]);
    assert_eq!(walk_seeds(None, 0u64, &vec![6], &vec![vec![snap(3)]]), vec![(snap(3), 6)]);
    let links = vec![None, Some(snap(4))];
    assert_eq!(directed_seeds(None, &vec![(0, 3), (1, 8)], &links).unwrap(), vec![(snap(4), 8)]);
    assert_eq!(
        directed_seeds(None, &vec![(1, 8), (2, 3)], &links).unwrap_err().message,
        "stop index 2 is outside the network's stop range"
    );
}

#[test]
fn door_egress_seeds_stops_without_a_coordinate() {
    let links = vec![
        Some(vec![WalkedStop { stop: 4, seconds: 30, meters: 9.5f64.to_bits() }]),
        None,
    ];
    let egress = door_egress(&vec![4, 7, 8], &vec![Some(0), None, Some(1)], &links);
    assert_eq!(egress.len(), 3);
    assert_eq!(egress[0], vec![(4, 30, 9.5f64.to_bits())]);
    assert_eq!(egress[1], vec![(7, 0, 0.0f64.to_bits())]);
    assert!(egress[2].is_empty());
}

#[test]
fn deadlines_are_met_over_the_shortest_walk() {
    let states = vec![vec![], vec![state(1, 900, 990)], vec![state(1, 800, 950)], vec![]];
    let egress = vec![(0, 50), (0, 30), (1, 20), (0, 40)];
    // The first two stops are left last on foot, the third one rides, and the
    // fourth cannot make it.
    assert_eq!(reverse_times(&states, &egress, 1000), vec![(0, 30), (1, 20), (2, 150)]);
    assert_eq!(reverse_times(&states, &vec![], 1000), vec![(1, 90), (2, 150)]);
}
