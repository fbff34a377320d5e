//! Fare tables, and the checks and columns of the (time, fare) frontiers.

use crate::bytes::{f64_is_cost, f64_less, is_cost, less};
use crate::text::ValueError;
use vstd::prelude::*;

verus! {

/// The index of a stop without a zone, and of a route without a type.
pub const NO_FARE: u32 = 0xFFFF_FFFF;

/// How many zones a product's mask can hold.
pub const ZONE_LIMIT: u32 = 128;

/// A zone ticket: price and duration are doubles' bits, zones a mask.
#[derive(Debug, Clone, Copy, PartialEq, Eq, Structural)]
pub struct ZoneProduct {
    pub price: u64,
    pub zones: u128,
    pub duration: u64,
    pub transfers: u32,
}

/// The zone of every stop and the tickets sold.
#[derive(Debug)]
pub struct ZoneFares {
    pub stop_zone: Vec<u32>,
    pub products: Vec<ZoneProduct>,
}

/// Fares by route type, with discounts between types; amounts are doubles'
/// bits.
#[derive(Debug)]
pub struct RuleFares {
    pub route_type: Vec<u32>,
    pub route_fare: Vec<u64>,
    pub unlimited_transfers: Vec<bool>,
    pub allow_same_route: Vec<bool>,
    pub pair_fare: Vec<u64>,
    pub max_discounted_transfers: u32,
    pub transfer_allowance: u32,
    pub fare_cap: u64,
}

#[derive(Debug)]
pub enum FareTables {
    Zone(ZoneFares),
    RuleBased(RuleFares),
}

/// The entries of a fare specification, as far as they are given.
#[derive(Debug)]
pub struct FareSpec {
    pub stop_zone: Option<Vec<u32>>,
    pub products: Option<Vec<ZoneProduct>>,
    pub route_type: Option<Vec<u32>>,
    pub route_fare: Option<Vec<u64>>,
    pub unlimited_transfers: Option<Vec<bool>>,
    pub allow_same_route: Option<Vec<bool>>,
    pub pair_fare: Option<Vec<u64>>,
    pub max_discounted_transfers: Option<u32>,
    pub transfer_allowance: Option<u32>,
    pub fare_cap: Option<u64>,
}

/// Whether a stop's zone is none or one a mask can hold.
pub open spec fn zone_fits(zone: u32) -> bool {
    zone == NO_FARE || zone < ZONE_LIMIT
}

/// What is wrong with a zone specification.
pub open spec fn zone_fault(stop_zone: Seq<u32>, has_products: bool, stop_count: nat) -> Option<
    Seq<char>,
> {
    if stop_zone.len() != stop_count {
        Some("the fare tables' stop_zone must cover every stop"@)
    } else if exists|s: int| 0 <= s < stop_zone.len() && !zone_fits(#[trigger] stop_zone[s]) {
        Some("fare zone indexes must stay below 128"@)
    } else if !has_products {
        Some("fare tables are missing \"products\""@)
    } else {
        None
    }
}

/// The first rule entry that a specification lacks.
pub open spec fn missing_rule(spec: FareSpec) -> Option<Seq<char>> {
    if spec.route_type is None {
        Some("fare tables are missing \"route_type\""@)
    } else if spec.route_fare is None {
        Some("fare tables are missing \"route_fare\""@)
    } else if spec.unlimited_transfers is None {
        Some("fare tables are missing \"unlimited_transfers\""@)
    } else if spec.allow_same_route is None {
        Some("fare tables are missing \"allow_same_route\""@)
    } else if spec.pair_fare is None {
        Some("fare tables are missing \"pair_fare\""@)
    } else if spec.max_discounted_transfers is None {
        Some("fare tables are missing \"max_discounted_transfers\""@)
    } else if spec.transfer_allowance is None {
        Some("fare tables are missing \"transfer_allowance\""@)
    } else if spec.fare_cap is None {
        Some("fare tables are missing \"fare_cap\""@)
    } else {
        None
    }
}

/// What is wrong with complete rule tables.
pub open spec fn rule_fault(tables: RuleFares, route_count: nat) -> Option<Seq<char>> {
    let count = tables.unlimited_transfers@.len();
    if tables.route_type@.len() != route_count || tables.route_fare@.len() != route_count {
        Some("the fare tables' route arrays must cover every route"@)
    } else if tables.allow_same_route@.len() != count || tables.pair_fare@.len() != count * count {
        Some("the fare tables' type arrays disagree on the type count"@)
    } else if exists|r: int|
        0 <= r < tables.route_type@.len() && (#[trigger] tables.route_type@[r]) != NO_FARE
            && tables.route_type@[r] >= count {
        Some("the fare tables' route types must index the type arrays"@)
    } else {
        None
    }
}

/// The rule tables that a complete specification holds.
pub open spec fn rules_of(spec: FareSpec) -> RuleFares {
    RuleFares {
        route_type: spec.route_type->0,
        route_fare: spec.route_fare->0,
        unlimited_transfers: spec.unlimited_transfers->0,
        allow_same_route: spec.allow_same_route->0,
        pair_fare: spec.pair_fare->0,
        max_discounted_transfers: spec.max_discounted_transfers->0,
        transfer_allowance: spec.transfer_allowance->0,
        fare_cap: spec.fare_cap->0,
    }
}

/// The tables of a specification, or what is wrong with it. A specification
/// with stop zones is a zone structure, any other a rule-based one.
pub open spec fn fare_outcome(spec: FareSpec, route_count: nat, stop_count: nat) -> Result<
    FareTables,
    Seq<char>,
> {
    match spec.stop_zone {
        Some(stop_zone) => match zone_fault(stop_zone@, spec.products is Some, stop_count) {
            Some(text) => Err(text),
            None => Ok(
                FareTables::Zone(ZoneFares { stop_zone, products: spec.products->0 }),
            ),
        },
        None => match missing_rule(spec) {
            Some(text) => Err(text),
            None => match rule_fault(rules_of(spec), route_count) {
                Some(text) => Err(text),
                None => Ok(FareTables::RuleBased(rules_of(spec))),
            },
        },
    }
}

fn zones_fit(stop_zone: &Vec<u32>) -> (fit: bool)
    ensures
        fit == !(exists|s: int| 0 <= s < stop_zone@.len() && !zone_fits(#[trigger] stop_zone@[s])),
{
    let mut index: usize = 0;
    while index < stop_zone.len()
        invariant
            index <= stop_zone@.len(),
            forall|s: int| 0 <= s < index ==> zone_fits(#[trigger] stop_zone@[s]),
        decreases stop_zone.len() - index,
    {
        let zone: u32 = stop_zone[index];
        if zone != NO_FARE && zone >= ZONE_LIMIT {
            assert(!zone_fits(stop_zone@[index as int]));
            return false;
        }
        index += 1;
    }
    true
}

fn types_fit(route_type: &Vec<u32>, count: usize) -> (fit: bool)
    ensures
        fit == !(exists|r: int|
            0 <= r < route_type@.len() && (#[trigger] route_type@[r]) != NO_FARE
                && route_type@[r] >= count),
{
    let mut index: usize = 0;
    while index < route_type.len()
        invariant
            index <= route_type@.len(),
            forall|r: int|
                0 <= r < index ==> (#[trigger] route_type@[r]) == NO_FARE || route_type@[r]
                    < count,
        decreases route_type.len() - index,
    {
        let kind: u32 = route_type[index];
        if kind != NO_FARE && kind as usize >= count {
            assert(route_type@[index as int] != NO_FARE && route_type@[index as int] >= count);
            return false;
        }
        index += 1;
    }
    true
}

fn is_square(length: usize, side: usize) -> (square: bool)
    ensures
        square == (length == side * side),
{
    match side.checked_mul(side) {
        Some(product) => length == product,
        None => false,
    }
}

fn check_rules(tables: &RuleFares, route_count: usize) -> (checked: Result<(), ValueError>)
    ensures
        match rule_fault(*tables, route_count as nat) {
            Some(text) => checked matches Err(error) && error.message@ == text,
            None => checked is Ok,
        },
{
    let count: usize = tables.unlimited_transfers.len();
    if tables.route_type.len() != route_count || tables.route_fare.len() != route_count {
        return Err(
            ValueError::new("the fare tables' route arrays must cover every route".to_owned()),
        );
    }
    if tables.allow_same_route.len() != count || !is_square(tables.pair_fare.len(), count) {
        return Err(
            ValueError::new("the fare tables' type arrays disagree on the type count".to_owned()),
        );
    }
    if !types_fit(&tables.route_type, count) {
        return Err(
            ValueError::new("the fare tables' route types must index the type arrays".to_owned()),
        );
    }
    Ok(())
}

fn missing<T>(message: &str) -> (refused: Result<T, ValueError>)
    ensures
        refused matches Err(error) && error.message@ == message@,
{
    Err(ValueError::new(message.to_owned()))
}

/// Builds the fare tables of a specification, held against the network's
/// route and stop counts.
pub fn fare_tables(spec: FareSpec, route_count: usize, stop_count: usize) -> (tables: Result<
    FareTables,
    ValueError,
>)
    ensures
        match fare_outcome(spec, route_count as nat, stop_count as nat) {
            Ok(expected) => tables == Ok::<FareTables, ValueError>(expected),
            Err(text) => tables matches Err(error) && error.message@ == text,
        },
{
    if let Some(stop_zone) = spec.stop_zone {
        if stop_zone.len() != stop_count {
            return Err(
                ValueError::new("the fare tables' stop_zone must cover every stop".to_owned()),
            );
        }
        if !zones_fit(&stop_zone) {
            return Err(ValueError::new("fare zone indexes must stay below 128".to_owned()));
        }
        return match spec.products {
            Some(products) => Ok(FareTables::Zone(ZoneFares { stop_zone, products })),
            None => missing("fare tables are missing \"products\""),
        };
    }
    let route_type = match spec.route_type {
        Some(values) => values,
        None => return missing("fare tables are missing \"route_type\""),
    };
    let route_fare = match spec.route_fare {
        Some(values) => values,
        None => return missing("fare tables are missing \"route_fare\""),
    };
    let unlimited_transfers = match spec.unlimited_transfers {
        Some(values) => values,
        None => return missing("fare tables are missing \"unlimited_transfers\""),
    };
    let allow_same_route = match spec.allow_same_route {
        Some(values) => values,
        None => return missing("fare tables are missing \"allow_same_route\""),
    };
    let pair_fare = match spec.pair_fare {
        Some(values) => values,
        None => return missing("fare tables are missing \"pair_fare\""),
    };
    let max_discounted_transfers: u32 = match spec.max_discounted_transfers {
        Some(value) => value,
        None => return missing("fare tables are missing \"max_discounted_transfers\""),
    };
    let transfer_allowance: u32 = match spec.transfer_allowance {
        Some(value) => value,
        None => return missing("fare tables are missing \"transfer_allowance\""),
    };
    let fare_cap: u64 = match spec.fare_cap {
        Some(value) => value,
        None => return missing("fare tables are missing \"fare_cap\""),
    };
    let tables = RuleFares {
        route_type,
        route_fare,
        unlimited_transfers,
        allow_same_route,
        pair_fare,
        max_discounted_transfers,
        transfer_allowance,
        fare_cap,
    };
    match check_rules(&tables, route_count) {
        Ok(_) => Ok(FareTables::RuleBased(tables)),
        Err(error) => Err(error),
    }
}

/// Accepted zone tables answer every stop with a zone that fits a product's
/// mask, or none.
pub proof fn law_accepted_zones_fit(
    spec: FareSpec,
    route_count: nat,
    stop_count: nat,
    stop: int,
)
    requires
        0 <= stop < stop_count,
        fare_outcome(spec, route_count, stop_count) matches Ok(FareTables::Zone(_)),
    ensures
        ({
            let zones = fare_outcome(spec, route_count, stop_count)->Ok_0->Zone_0;
            zones.stop_zone@.len() == stop_count && zone_fits(zones.stop_zone@[stop])
        }),
{
    assert(zone_fits(spec.stop_zone->0@[stop]));
}

/// Accepted rule tables index inside their own arrays: every typed route's
/// fare, and the discount between any two types.
pub proof fn law_accepted_rules_index(
    spec: FareSpec,
    route_count: nat,
    stop_count: nat,
    first: int,
    second: int,
)
    requires
        0 <= first < route_count,
        0 <= second < route_count,
        fare_outcome(spec, route_count, stop_count) matches Ok(FareTables::RuleBased(_)),
    ensures
        ({
            let rules = fare_outcome(spec, route_count, stop_count)->Ok_0->RuleBased_0;
            let count = rules.unlimited_transfers@.len();
            let from = rules.route_type@[first];
            let to = rules.route_type@[second];
            &&& rules.route_fare@.len() == route_count
            &&& from != NO_FARE ==> from < count && from < rules.allow_same_route@.len()
            &&& from != NO_FARE && to != NO_FARE ==> 0 <= from * count + to
                < rules.pair_fare@.len()
        }),
{
    let rules = rules_of(spec);
    let count = rules.unlimited_transfers@.len();
    let from = rules.route_type@[first];
    let to = rules.route_type@[second];
    if from != NO_FARE && to != NO_FARE {
        assert(from * count + to < count * count) by (nonlinear_arith)
            requires
                0 <= from < count,
                0 <= to < count,
        ;
        assert(0 <= from * count) by (nonlinear_arith);
    }
}

/// The samples a stepped window takes.
pub open spec fn sample_count(window: u32, step: u32) -> int {
    (window + step - 1) / step as int
}

pub const MAX_SAMPLES: u64 = 100_000;

pub open spec fn step_fault(window: u32, departure_step: Option<u32>) -> Option<Seq<char>> {
    match departure_step {
        None => None,
        Some(step) => if step == 0 {
            Some("departure_step must be a positive number of seconds"@)
        } else if sample_count(window, step) > MAX_SAMPLES {
            Some(
                "window / departure_step samples the window more than 100000 times; widen the step or narrow the window"@,
            )
        } else {
            None
        },
    }
}

/// Rejects a zero step, and a grid too fine for its window.
pub fn validated_step(window: u32, departure_step: Option<u32>) -> (checked: Result<
    (),
    ValueError,
>)
    ensures
        match step_fault(window, departure_step) {
            Some(text) => checked matches Err(error) && error.message@ == text,
            None => checked is Ok,
        },
{
    if let Some(step) = departure_step {
        if step == 0 {
            return Err(
                ValueError::new("departure_step must be a positive number of seconds".to_owned()),
            );
        }
        let samples: u64 = (window as u64 + step as u64 - 1) / step as u64;
        if samples > MAX_SAMPLES {
            return Err(
                ValueError::new(
                    "window / departure_step samples the window more than 100000 times; widen the step or narrow the window".to_owned(),
                ),
            );
        }
    }
    Ok(())
}

/// Whether cutoffs are amounts in strictly ascending order, at least one.
pub open spec fn cutoffs_ascend(cutoffs: Seq<u64>) -> bool {
    &&& cutoffs.len() > 0
    &&& forall|i: int| 0 <= i < cutoffs.len() ==> f64_is_cost(#[trigger] cutoffs[i])
    &&& forall|i: int|
        0 <= i < cutoffs.len() - 1 ==> f64_less(#[trigger] cutoffs[i], cutoffs[i + 1])
}

pub const CUTOFFS_TEXT: &'static str =
    "cutoffs must be a non-empty ascending list of finite, non-negative amounts";

/// Rejects cutoffs that are not a non-empty ascending list of finite,
/// non-negative amounts.
pub fn validated_cutoffs(cutoffs: &[u64]) -> (checked: Result<(), ValueError>)
    ensures
        match checked {
            Ok(_) => cutoffs_ascend(cutoffs@),
            Err(error) => !cutoffs_ascend(cutoffs@) && error.message@ == CUTOFFS_TEXT@,
        },
{
    if cutoffs.len() == 0 {
        return Err(ValueError::new(CUTOFFS_TEXT.to_owned()));
    }
    let mut index: usize = 0;
    while index < cutoffs.len()
        invariant
            index <= cutoffs@.len(),
            forall|i: int| 0 <= i < index ==> f64_is_cost(#[trigger] cutoffs@[i]),
            forall|i: int|
                0 <= i < index - 1 ==> f64_less(#[trigger] cutoffs@[i], cutoffs@[i + 1]),
        decreases cutoffs.len() - index,
    {
        if !is_cost(cutoffs[index]) {
            assert(!f64_is_cost(cutoffs@[index as int]));
            return Err(ValueError::new(CUTOFFS_TEXT.to_owned()));
        }
        if index > 0 && !less(cutoffs[index - 1], cutoffs[index]) {
            assert(!f64_less(cutoffs@[index - 1], cutoffs@[index - 1 + 1]));
            return Err(ValueError::new(CUTOFFS_TEXT.to_owned()));
        }
        index += 1;
    }
    Ok(())
}

/// Rejects a departure window that runs past the router clock.
pub fn check_clock(departure: u32, window: u32) -> (checked: Result<(), ValueError>)
    ensures
        match checked {
            Ok(_) => departure + window <= u32::MAX,
            Err(error) => departure + window > u32::MAX && error.message@
                == "departure + window overflows the router clock; narrow the window"@,
        },
{
    if departure as u64 + window as u64 > u32::MAX as u64 {
        return Err(
            ValueError::new(
                "departure + window overflows the router clock; narrow the window".to_owned(),
            ),
        );
    }
    Ok(())
}

/// Rejects an empty departure window.
pub fn check_positive_window(window: u32) -> (checked: Result<(), ValueError>)
    ensures
        match checked {
            Ok(_) => window > 0,
            Err(error) => window == 0 && error.message@
                == "window must be a positive number of seconds"@,
        },
{
    if window == 0 {
        return Err(ValueError::new("window must be a positive number of seconds".to_owned()));
    }
    Ok(())
}

/// The rule-based tables, which the fare frontier prices.
pub fn rule_structure(tables: FareTables) -> (rules: Result<RuleFares, ValueError>)
    ensures
        match tables {
            FareTables::RuleBased(expected) => rules == Ok::<RuleFares, ValueError>(expected),
            FareTables::Zone(_) => rules matches Err(error) && error.message@
                == "the fare frontier prices rule-based structures only; a zone structure's journeys price through journey_frontiers and annotate_fares"@,
        },
{
    match tables {
        FareTables::RuleBased(rules) => Ok(rules),
        FareTables::Zone(_) => Err(
            ValueError::new(
                "the fare frontier prices rule-based structures only; a zone structure's journeys price through journey_frontiers and annotate_fares".to_owned(),
            ),
        ),
    }
}

/// The zone tables, which the zone frontier takes.
pub fn zone_structure(tables: FareTables) -> (zones: Result<ZoneFares, ValueError>)
    ensures
        match tables {
            FareTables::Zone(expected) => zones == Ok::<ZoneFares, ValueError>(expected),
            FareTables::RuleBased(_) => zones matches Err(error) && error.message@
                == "the zone frontier takes a zone fare structure"@,
        },
{
    match tables {
        FareTables::Zone(zones) => Ok(zones),
        FareTables::RuleBased(_) => Err(
            ValueError::new("the zone frontier takes a zone fare structure".to_owned()),
        ),
    }
}

/// The walk from a stop to another: none to itself, else its first footpath.
pub open spec fn footpath(origin: u32, stop: u32, edges: Seq<(u32, u32)>, from: int) -> Option<u32>
    decreases edges.len() - from,
{
    if stop == origin {
        Some(0)
    } else if from >= edges.len() {
        None
    } else if edges[from].0 == stop {
        Some(edges[from].1)
    } else {
        footpath(origin, stop, edges, from + 1)
    }
}

/// A walk within the duration cap.
pub open spec fn capped(walk: Option<u32>, max_duration: Option<u32>) -> Option<u32> {
    match walk {
        Some(seconds) => if max_duration matches Some(cap) && seconds > cap {
            None
        } else {
            Some(seconds)
        },
        None => None,
    }
}

/// The direct walk that joins a cell as its zero-fare candidate: the
/// footpath from the origin stop, where it stays within the duration cap.
pub fn direct_walk(
    origin: u32,
    stop: u32,
    edges: &Vec<(u32, u32)>,
    max_duration: Option<u32>,
) -> (walk: Option<u32>)
    ensures
        walk == capped(footpath(origin, stop, edges@, 0), max_duration),
{
    let mut found: Option<u32> = None;
    if stop == origin {
        found = Some(0);
    } else {
        let mut index: usize = 0;
        while index < edges.len() && edges[index].0 != stop
            invariant
                index <= edges@.len(),
                stop != origin,
                footpath(origin, stop, edges@, 0) == footpath(origin, stop, edges@, index as int),
            decreases edges.len() - index,
        {
            index += 1;
        }
        if index < edges.len() {
            found = Some(edges[index].1);
        }
    }
    walk_within(found, max_duration)
}

/// A walk, where it stays within the duration cap.
pub fn walk_within(walk: Option<u32>, max_duration: Option<u32>) -> (kept: Option<u32>)
    ensures
        kept == capped(walk, max_duration),
{
    match walk {
        Some(seconds) => match max_duration {
            Some(cap) => if seconds > cap {
                None
            } else {
                Some(seconds)
            },
            None => Some(seconds),
        },
        None => None,
    }
}

/// A frontier cell: the least travel time under a cutoff, with its fare and
/// rides; amounts are doubles' bits.
#[derive(Debug, Clone, Copy, PartialEq, Eq, Structural)]
pub struct FrontierRow {
    pub cutoff: u64,
    pub travel_time: u32,
    pub fare: u64,
    pub rides: u32,
}

/// A frontier's rows as equal-length columns.
pub struct FrontierTable {
    pub from_index: Vec<u32>,
    pub to_index: Vec<u32>,
    pub cutoff: Vec<u64>,
    pub travel_time_s: Vec<u32>,
    pub fare: Vec<u64>,
    pub rides: Vec<u32>,
}

/// The rows present among the first `count` cutoffs of a pair.
pub open spec fn present_rows(
    from: u32,
    to: u32,
    rows: Seq<Option<FrontierRow>>,
    count: int,
) -> Seq<(u32, u32, FrontierRow)>
    decreases count,
{
    if count <= 0 {
        Seq::empty()
    } else {
        match rows[count - 1] {
            Some(row) => present_rows(from, to, rows, count - 1).push((from, to, row)),
            None => present_rows(from, to, rows, count - 1),
        }
    }
}

/// The rows of the first `count` destinations of an origin.
pub open spec fn slot_rows(from: u32, slots: Seq<Vec<Option<FrontierRow>>>, count: int) -> Seq<
    (u32, u32, FrontierRow),
>
    decreases count,
{
    if count <= 0 {
        Seq::empty()
    } else {
        slot_rows(from, slots, count - 1) + present_rows(
            from,
            (count - 1) as u32,
            slots[count - 1]@,
            slots[count - 1]@.len() as int,
        )
    }
}

/// The rows of the first `count` origins.
pub open spec fn cell_rows(cells: Seq<Vec<Vec<Option<FrontierRow>>>>, count: int) -> Seq<
    (u32, u32, FrontierRow),
>
    decreases count,
{
    if count <= 0 {
        Seq::empty()
    } else {
        cell_rows(cells, count - 1) + slot_rows(
            (count - 1) as u32,
            cells[count - 1]@,
            cells[count - 1]@.len() as int,
        )
    }
}

/// Whether a table holds rows in order.
pub open spec fn table_holds(table: FrontierTable, rows: Seq<(u32, u32, FrontierRow)>) -> bool {
    &&& table.from_index@ == rows.map_values(|row: (u32, u32, FrontierRow)| row.0)
    &&& table.to_index@ == rows.map_values(|row: (u32, u32, FrontierRow)| row.1)
    &&& table.cutoff@ == rows.map_values(|row: (u32, u32, FrontierRow)| row.2.cutoff)
    &&& table.travel_time_s@ == rows.map_values(|row: (u32, u32, FrontierRow)| row.2.travel_time)
    &&& table.fare@ == rows.map_values(|row: (u32, u32, FrontierRow)| row.2.fare)
    &&& table.rides@ == rows.map_values(|row: (u32, u32, FrontierRow)| row.2.rides)
}

fn push_frontier(
    table: &mut FrontierTable,
    from: u32,
    to: u32,
    row: FrontierRow,
    Ghost(rows): Ghost<Seq<(u32, u32, FrontierRow)>>,
)
    requires
        table_holds(*old(table), rows),
    ensures
        table_holds(*final(table), rows.push((from, to, row))),
{
    table.from_index.push(from);
    table.to_index.push(to);
    table.cutoff.push(row.cutoff);
    table.travel_time_s.push(row.travel_time);
    table.fare.push(row.fare);
    table.rides.push(row.rides);
    proof {
        let more = rows.push((from, to, row));
        assert(table.from_index@ =~= more.map_values(|row: (u32, u32, FrontierRow)| row.0));
        assert(table.to_index@ =~= more.map_values(|row: (u32, u32, FrontierRow)| row.1));
        assert(table.cutoff@ =~= more.map_values(|row: (u32, u32, FrontierRow)| row.2.cutoff));
        assert(table.travel_time_s@ =~= more.map_values(
            |row: (u32, u32, FrontierRow)| row.2.travel_time,
        ));
        assert(table.fare@ =~= more.map_values(|row: (u32, u32, FrontierRow)| row.2.fare));
        assert(table.rides@ =~= more.map_values(|row: (u32, u32, FrontierRow)| row.2.rides));
    }
}

/// Flattens frontier cells into equal-length columns: by origin, then by
/// destination, then by cutoff; cutoffs without a journey are absent.
pub fn frontier_columns(cells: &Vec<Vec<Vec<Option<FrontierRow>>>>) -> (table: FrontierTable)
    requires
        cells@.len() <= u32::MAX,
        forall|i: int| 0 <= i < cells@.len() ==> (#[trigger] cells@[i])@.len() <= u32::MAX,
    ensures
        table_holds(table, cell_rows(cells@, cells@.len() as int)),
{
    let mut table = FrontierTable {
        from_index: Vec::new(),
        to_index: Vec::new(),
        cutoff: Vec::new(),
        travel_time_s: Vec::new(),
        fare: Vec::new(),
        rides: Vec::new(),
    };
    proof {
        let none = Seq::<(u32, u32, FrontierRow)>::empty();
        assert(table.from_index@ =~= none.map_values(|row: (u32, u32, FrontierRow)| row.0));
        assert(table.to_index@ =~= none.map_values(|row: (u32, u32, FrontierRow)| row.1));
        assert(table.cutoff@ =~= none.map_values(|row: (u32, u32, FrontierRow)| row.2.cutoff));
        assert(table.travel_time_s@ =~= none.map_values(
            |row: (u32, u32, FrontierRow)| row.2.travel_time,
        ));
        assert(table.fare@ =~= none.map_values(|row: (u32, u32, FrontierRow)| row.2.fare));
        assert(table.rides@ =~= none.map_values(|row: (u32, u32, FrontierRow)| row.2.rides));
    }
    let mut origin: usize = 0;
    while origin < cells.len()
        invariant
            origin <= cells@.len() <= u32::MAX,
            forall|i: int| 0 <= i < cells@.len() ==> (#[trigger] cells@[i])@.len() <= u32::MAX,
            table_holds(table, cell_rows(cells@, origin as int)),
        decreases cells.len() - origin,
    {
        let slots = &cells[origin];
        let ghost before = cell_rows(cells@, origin as int);
        assert(cells@[origin as int]@.len() <= u32::MAX);
        let mut slot: usize = 0;
        assert(before + slot_rows(origin as u32, slots@, 0) =~= before);
        while slot < slots.len()
            invariant
                slot <= slots@.len() <= u32::MAX,
                origin <= u32::MAX,
                table_holds(table, before + slot_rows(origin as u32, slots@, slot as int)),
            decreases slots.len() - slot,
        {
            let rows = &slots[slot];
            let ghost held = before + slot_rows(origin as u32, slots@, slot as int);
            let mut index: usize = 0;
            assert(held + present_rows(origin as u32, slot as u32, rows@, 0) =~= held);
            while index < rows.len()
                invariant
                    index <= rows@.len(),
                    slot <= u32::MAX,
                    origin <= u32::MAX,
                    table_holds(
                        table,
                        held + present_rows(origin as u32, slot as u32, rows@, index as int),
                    ),
                decreases rows.len() - index,
            {
                let ghost upto = held + present_rows(
                    origin as u32,
                    slot as u32,
                    rows@,
                    index as int,
                );
                if let Some(row) = rows[index] {
                    push_frontier(&mut table, origin as u32, slot as u32, row, Ghost(upto));
                    assert(upto.push((origin as u32, slot as u32, row)) =~= held + present_rows(
                        origin as u32,
                        slot as u32,
                        rows@,
                        index + 1,
                    ));
                }
                index += 1;
            }
            assert(before + slot_rows(origin as u32, slots@, slot + 1) =~= held + present_rows(
                origin as u32,
                slot as u32,
                rows@,
                rows@.len() as int,
            ));
            slot += 1;
        }
        origin += 1;
    }
    table
}

/// A specification with stop zones is accepted exactly where they cover the
/// stops, each is the none marker or fits a mask, and there are products; the
/// tables are then its own zones and products.
pub proof fn law_zone_specifications(spec: FareSpec, route_count: nat, stop_count: nat)
    requires
        spec.stop_zone is Some,
    ensures
        ({
            let outcome = fare_outcome(spec, route_count, stop_count);
            let zones = spec.stop_zone->0@;
            &&& outcome is Ok <==> zones.len() == stop_count && spec.products is Some && forall|
                s: int,
            |
                0 <= s < zones.len() ==> #[trigger] zones[s] < 128 || zones[s] == u32::MAX
            &&& outcome matches Ok(tables) ==> (tables matches FareTables::Zone(held)
                && held.stop_zone == spec.stop_zone->0 && held.products == spec.products->0)
        }),
{
    let zones = spec.stop_zone->0@;
    if fare_outcome(spec, route_count, stop_count) is Ok {
        assert forall|s: int| 0 <= s < zones.len() implies #[trigger] zones[s] < 128 || zones[s]
            == u32::MAX by {
            assert(zone_fits(zones[s]));
        }
    }
}

/// A specification without stop zones is accepted exactly where no rule is
/// missing, the route arrays cover the routes, the type arrays agree on a
/// count, and every route's type is the none marker or within that count; the
/// tables then hold its own rules, field by field.
pub proof fn law_rule_specifications(spec: FareSpec, route_count: nat, stop_count: nat)
    requires
        spec.stop_zone is None,
    ensures
        ({
            let outcome = fare_outcome(spec, route_count, stop_count);
            let complete = spec.route_type is Some && spec.route_fare is Some
                && spec.unlimited_transfers is Some && spec.allow_same_route is Some
                && spec.pair_fare is Some && spec.max_discounted_transfers is Some
                && spec.transfer_allowance is Some && spec.fare_cap is Some;
            let types = spec.unlimited_transfers->0@.len();
            &&& outcome is Ok <==> complete && spec.route_type->0@.len() == route_count
                && spec.route_fare->0@.len() == route_count && spec.allow_same_route->0@.len()
                == types && spec.pair_fare->0@.len() == types * types && forall|r: int|
                0 <= r < route_count ==> #[trigger] spec.route_type->0@[r] < types
                    || spec.route_type->0@[r] == u32::MAX
            &&& outcome matches Ok(tables) ==> {
                &&& tables matches FareTables::RuleBased(rules)
                &&& spec.route_type == Some(rules.route_type)
                &&& spec.route_fare == Some(rules.route_fare)
                &&& spec.unlimited_transfers == Some(rules.unlimited_transfers)
                &&& spec.allow_same_route == Some(rules.allow_same_route)
                &&& spec.pair_fare == Some(rules.pair_fare)
                &&& spec.max_discounted_transfers == Some(rules.max_discounted_transfers)
                &&& spec.transfer_allowance == Some(rules.transfer_allowance)
                &&& spec.fare_cap == Some(rules.fare_cap)
            }
        }),
{
    let types = spec.unlimited_transfers->0@.len();
    if fare_outcome(spec, route_count, stop_count) is Ok {
        assert forall|r: int| 0 <= r < route_count implies #[trigger] spec.route_type->0@[r] < types
            || spec.route_type->0@[r] == u32::MAX by {
            assert(rules_of(spec).route_type@[r] == spec.route_type->0@[r]);
        }
    }
}

/// The samples of a stepped window are as many steps as it takes to cover the
/// window, and no more.
pub proof fn law_samples_cover_the_window(window: u32, step: u32)
    requires
        step > 0,
    ensures
        sample_count(window, step) * step >= window,
        window > 0 ==> (sample_count(window, step) - 1) * step < window,
        window == 0 ==> sample_count(window, step) == 0,
{
    let wide = window + step - 1;
    let count = wide / step as int;
    vstd::arithmetic::div_mod::lemma_fundamental_div_mod(wide, step as int);
    assert(step * count == count * step) by (nonlinear_arith);
    assert((count - 1) * step == count * step - step) by (nonlinear_arith);
    if window == 0 {
        vstd::arithmetic::div_mod::lemma_basic_div(wide, step as int);
    }
}

/// A step is accepted exactly where it is none at all, or positive and a
/// hundred thousand of it cover the window.
pub proof fn law_steps_sample_in_bounds(window: u32, departure_step: Option<u32>)
    ensures
        step_fault(window, departure_step) is None <==> (departure_step matches Some(step)
            ==> step > 0 && 100_000 * step >= window),
{
    if let Some(step) = departure_step {
        if step > 0 {
            law_samples_cover_the_window(window, step);
            let count = sample_count(window, step);
            if count <= 100_000 {
                assert(count * step <= 100_000 * step) by (nonlinear_arith)
                    requires
                        count <= 100_000,
                        step > 0,
                ;
            } else {
                assert(100_000 * step <= (count - 1) * step) by (nonlinear_arith)
                    requires
                        count > 100_000,
                        step > 0,
                ;
                if window == 0 {
                    assert(false);
                }
            }
        }
    }
}

/// Of two accepted cutoffs the later one is the larger.
pub proof fn law_cutoffs_rise(cutoffs: Seq<u64>, i: int, j: int)
    requires
        cutoffs_ascend(cutoffs),
        0 <= i < j < cutoffs.len(),
    ensures
        f64_less(cutoffs[i], cutoffs[j]),
        f64_is_cost(cutoffs[i]),
    decreases j - i,
{
    assert(f64_less(cutoffs[j - 1], cutoffs[j - 1 + 1]));
    if i < j - 1 {
        law_cutoffs_rise(cutoffs, i, j - 1);
    }
}

/// The walk to the origin itself takes no time; the walk to another stop is
/// its first footpath there, and there is none where no footpath leads there.
pub proof fn law_footpaths_are_the_first_there(
    origin: u32,
    stop: u32,
    edges: Seq<(u32, u32)>,
    at: int,
)
    requires
        0 <= at <= edges.len(),
        forall|e: int| 0 <= e < at ==> (#[trigger] edges[e]).0 != stop,
        at < edges.len() ==> edges[at].0 == stop,
    ensures
        stop == origin ==> footpath(origin, stop, edges, 0) == Some(0u32),
        stop != origin && at < edges.len() ==> footpath(origin, stop, edges, 0) == Some(
            edges[at].1,
        ),
        stop != origin && at == edges.len() ==> footpath(origin, stop, edges, 0) is None,
{
    lemma_first_footpath(origin, stop, edges, 0, at);
}

proof fn lemma_first_footpath(
    origin: u32,
    stop: u32,
    edges: Seq<(u32, u32)>,
    from: int,
    at: int,
)
    requires
        0 <= from <= at <= edges.len(),
        forall|e: int| from <= e < at ==> (#[trigger] edges[e]).0 != stop,
        at < edges.len() ==> edges[at].0 == stop,
    ensures
        stop != origin ==> footpath(origin, stop, edges, from) == if at < edges.len() {
            Some(edges[at].1)
        } else {
            None
        },
        stop == origin ==> footpath(origin, stop, edges, from) == Some(0u32),
    decreases at - from,
{
    if from < at {
        assert(edges[from].0 != stop);
        lemma_first_footpath(origin, stop, edges, from + 1, at);
    }
}

/// A capped walk is the walk itself where it is no longer than the cap, and
/// none otherwise.
pub proof fn law_caps_drop_longer_walks(walk: Option<u32>, max_duration: Option<u32>)
    ensures
        capped(walk, None) == walk,
        walk is None ==> capped(walk, max_duration) is None,
        walk is Some && max_duration is Some && walk->0 <= max_duration->0 ==> capped(
            walk,
            max_duration,
        ) == walk,
        walk is Some && max_duration is Some && walk->0 > max_duration->0 ==> capped(
            walk,
            max_duration,
        ) is None,
{
}

proof fn lemma_present_rows(from: u32, to: u32, rows: Seq<Option<FrontierRow>>, count: int)
    requires
        0 <= count <= rows.len(),
    ensures
        forall|c: int|
            0 <= c < count && #[trigger] rows[c] is Some ==> present_rows(
                from,
                to,
                rows,
                count,
            ).contains((from, to, rows[c]->0)),
        forall|k: int|
            0 <= k < present_rows(from, to, rows, count).len() ==> (#[trigger] present_rows(
                from,
                to,
                rows,
                count,
            )[k]).0 == from && present_rows(from, to, rows, count)[k].1 == to && rows.contains(
                Some(present_rows(from, to, rows, count)[k].2),
            ),
    decreases count,
{
    if count > 0 {
        lemma_present_rows(from, to, rows, count - 1);
        let before = present_rows(from, to, rows, count - 1);
        let after = present_rows(from, to, rows, count);
        assert forall|c: int|
            0 <= c < count && #[trigger] rows[c] is Some implies after.contains(
            (from, to, rows[c]->0),
        ) by {
            let entry = (from, to, rows[c]->0);
            if c < count - 1 {
                assert(before.contains(entry));
                let at = choose|at: int| 0 <= at < before.len() && before[at] == entry;
                assert(after[at] == entry);
            } else {
                assert(after[after.len() - 1] == entry);
            }
        }
        assert forall|k: int| 0 <= k < after.len() implies (#[trigger] after[k]).0 == from
            && after[k].1 == to && rows.contains(Some(after[k].2)) by {
            if k < before.len() {
                assert(after[k] == before[k]);
            } else {
                assert(rows[count - 1] == Some(after[k].2));
            }
        }
    }
}

proof fn lemma_slot_rows(from: u32, slots: Seq<Vec<Option<FrontierRow>>>, count: int)
    requires
        0 <= count <= slots.len() <= u32::MAX,
    ensures
        forall|d: int, c: int|
            0 <= d < count && 0 <= c < slots[d]@.len() && #[trigger] slots[d]@[c] is Some
                ==> slot_rows(from, slots, count).contains((from, d as u32, slots[d]@[c]->0)),
        forall|k: int|
            0 <= k < slot_rows(from, slots, count).len() ==> (#[trigger] slot_rows(
                from,
                slots,
                count,
            )[k]).0 == from && slot_rows(from, slots, count)[k].1 < count
                && slots[slot_rows(from, slots, count)[k].1 as int]@.contains(
                Some(slot_rows(from, slots, count)[k].2),
            ),
    decreases count,
{
    if count > 0 {
        lemma_slot_rows(from, slots, count - 1);
        let own = slots[count - 1]@;
        let to = (count - 1) as u32;
        lemma_present_rows(from, to, own, own.len() as int);
        let before = slot_rows(from, slots, count - 1);
        let made = present_rows(from, to, own, own.len() as int);
        let after = slot_rows(from, slots, count);
        assert forall|d: int, c: int|
            0 <= d < count && 0 <= c < slots[d]@.len()
                && #[trigger] slots[d]@[c] is Some implies after.contains(
            (from, d as u32, slots[d]@[c]->0),
        ) by {
            let entry = (from, d as u32, slots[d]@[c]->0);
            if d < count - 1 {
                assert(before.contains(entry));
                let at = choose|at: int| 0 <= at < before.len() && before[at] == entry;
                assert(after[at] == entry);
            } else {
                assert(own[c] is Some);
                assert(made.contains(entry));
                let at = choose|at: int| 0 <= at < made.len() && made[at] == entry;
                assert(after[before.len() + at] == entry);
            }
        }
        assert forall|k: int| 0 <= k < after.len() implies (#[trigger] after[k]).0 == from
            && after[k].1 < count && slots[after[k].1 as int]@.contains(Some(after[k].2)) by {
            if k < before.len() {
                assert(after[k] == before[k]);
            } else {
                assert(after[k] == made[k - before.len()]);
            }
        }
    }
}

/// The frontier rows hold every row of every origin and destination beside
/// these two, and nothing else, origin by origin.
pub proof fn law_frontier_rows_are_the_cells(
    cells: Seq<Vec<Vec<Option<FrontierRow>>>>,
    count: int,
)
    requires
        0 <= count <= cells.len() <= u32::MAX,
        forall|i: int| 0 <= i < cells.len() ==> (#[trigger] cells[i])@.len() <= u32::MAX,
    ensures
        forall|o: int, d: int, c: int|
            0 <= o < count && 0 <= d < cells[o]@.len() && 0 <= c < cells[o]@[d]@.len()
                && #[trigger] cells[o]@[d]@[c] is Some ==> cell_rows(cells, count).contains(
                (o as u32, d as u32, cells[o]@[d]@[c]->0),
            ),
        forall|k: int|
            0 <= k < cell_rows(cells, count).len() ==> in_cells(
                cells,
                count,
                #[trigger] cell_rows(cells, count)[k],
            ),
        forall|j: int, k: int|
            0 <= j < k < cell_rows(cells, count).len() ==> (#[trigger] cell_rows(
                cells,
                count,
            )[j]).0 <= (#[trigger] cell_rows(cells, count)[k]).0,
    decreases count,
{
    if count > 0 {
        law_frontier_rows_are_the_cells(cells, count - 1);
        let own = cells[count - 1]@;
        let from = (count - 1) as u32;
        lemma_slot_rows(from, own, own.len() as int);
        let before = cell_rows(cells, count - 1);
        let made = slot_rows(from, own, own.len() as int);
        let after = cell_rows(cells, count);
        assert forall|o: int, d: int, c: int|
            0 <= o < count && 0 <= d < cells[o]@.len() && 0 <= c < cells[o]@[d]@.len()
                && #[trigger] cells[o]@[d]@[c] is Some implies after.contains(
            (o as u32, d as u32, cells[o]@[d]@[c]->0),
        ) by {
            let entry = (o as u32, d as u32, cells[o]@[d]@[c]->0);
            if o < count - 1 {
                assert(before.contains(entry));
                let at = choose|at: int| 0 <= at < before.len() && before[at] == entry;
                assert(after[at] == entry);
            } else {
                assert(own[d]@[c] is Some);
                assert(made.contains(entry));
                let at = choose|at: int| 0 <= at < made.len() && made[at] == entry;
                assert(after[before.len() + at] == entry);
            }
        }
        assert forall|k: int| 0 <= k < after.len() implies in_cells(
            cells,
            count,
            #[trigger] after[k],
        ) by {
            if k < before.len() {
                assert(after[k] == before[k]);
                assert(in_cells(cells, count - 1, before[k]));
            } else {
                assert(after[k] == made[k - before.len()]);
            }
        }
        assert forall|j: int, k: int| 0 <= j < k < after.len() implies (#[trigger] after[j]).0 <= (
        #[trigger] after[k]).0 by {
            if k < before.len() {
                assert(after[j] == before[j] && after[k] == before[k]);
            } else {
                assert(after[k] == made[k - before.len()]);
                if j < before.len() {
                    assert(after[j] == before[j]);
                    assert(in_cells(cells, count - 1, before[j]));
                } else {
                    assert(after[j] == made[j - before.len()]);
                }
            }
        }
    }
}

/// Whether a row stands among its origin's and destination's.
pub open spec fn in_cells(
    cells: Seq<Vec<Vec<Option<FrontierRow>>>>,
    count: int,
    row: (u32, u32, FrontierRow),
) -> bool {
    &&& row.0 < count
    &&& row.1 < cells[row.0 as int]@.len()
    &&& cells[row.0 as int]@[row.1 as int]@.contains(Some(row.2))
}

/// A table's columns are as long as one another, and hold at one index the
/// fields of one row.
pub proof fn law_frontier_columns_are_the_fields(
    table: FrontierTable,
    rows: Seq<(u32, u32, FrontierRow)>,
    k: int,
)
    requires
        table_holds(table, rows),
        0 <= k < rows.len(),
    ensures
        table.from_index@.len() == rows.len(),
        table.to_index@.len() == rows.len(),
        table.cutoff@.len() == rows.len(),
        table.travel_time_s@.len() == rows.len(),
        table.fare@.len() == rows.len(),
        table.rides@.len() == rows.len(),
        table.from_index@[k] == rows[k].0,
        table.to_index@[k] == rows[k].1,
        table.cutoff@[k] == rows[k].2.cutoff,
        table.travel_time_s@[k] == rows[k].2.travel_time,
        table.fare@[k] == rows[k].2.fare,
        table.rides@[k] == rows[k].2.rides,
{
}

/// Cutoffs that rise from each one to every later one, and are amounts, are
/// accepted; no cutoffs at all are not.
pub proof fn law_rising_cutoffs_are_accepted(cutoffs: Seq<u64>)
    ensures
        cutoffs.len() == 0 ==> !cutoffs_ascend(cutoffs),
        cutoffs.len() > 0 && (forall|i: int| 0 <= i < cutoffs.len() ==> f64_is_cost(
            #[trigger] cutoffs[i],
        )) && (forall|i: int, j: int|
            0 <= i < j < cutoffs.len() ==> f64_less(
                #[trigger] cutoffs[i],
                #[trigger] cutoffs[j],
            )) ==> cutoffs_ascend(cutoffs),
{
}

} // verus!
