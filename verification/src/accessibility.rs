//! Accessibility: decay functions, the checks of an aggregation, the nearest
//! destinations as padded arrays, and the fields and seeds of a catchment.

use crate::bytes::{
    f64_is_cost, f64_is_finite, f64_is_nan, f64_is_positive, is_cost, is_finite, is_positive,
    F64_INFINITY,
};
use crate::costs::UNKNOWN;
use crate::options::{debug_text, quoted};
use crate::reduction::Snap;
use crate::rows::{lemma_stacked_push, stacked};
use crate::text::{decimal, decimal_text, joined, joined_text, same_text, ValueError};
use crate::time_rows::{departs_by, UNREACHABLE};
use vstd::prelude::*;

verus! {

/// How an opportunity's weight falls with its cost; parameters are doubles'
/// bits.
#[derive(Debug, Clone, Copy, PartialEq, Eq, Structural)]
pub enum Decay {
    Step,
    Linear { width: u64 },
    Exponential { half_life: u64 },
    Logistic { scale: u64 },
}

pub open spec fn missing_parameter_text(decay: Seq<char>, name: Seq<char>) -> Seq<char> {
    joined_text(
        seq![
            "decay="@,
            quoted(decay),
            " requires decay_param ("@,
            name,
            "), a positive finite number"@,
        ],
    )
}

pub open spec fn bad_parameter_text(name: Seq<char>, printed: Seq<char>) -> Seq<char> {
    joined_text(
        seq!["decay_param ("@, name, ") must be a positive finite number, not "@, printed],
    )
}

/// The parameter of a decay family, by the name the family gives it.
pub open spec fn decay_parameter(
    decay: Seq<char>,
    name: Seq<char>,
    parameter: Option<u64>,
    printed: Seq<char>,
) -> Result<u64, Seq<char>> {
    match parameter {
        None => Err(missing_parameter_text(decay, name)),
        Some(value) => if f64_is_positive(value) {
            Ok(value)
        } else {
            Err(bad_parameter_text(name, printed))
        },
    }
}

/// The decay a name and its parameter stand for; `printed` is the parameter
/// as it prints.
pub open spec fn decay_outcome(
    decay: Seq<char>,
    parameter: Option<u64>,
    printed: Seq<char>,
) -> Result<Decay, Seq<char>> {
    if decay == "step"@ {
        if parameter is Some {
            Err("decay='step' takes no decay_param"@)
        } else {
            Ok(Decay::Step)
        }
    } else if decay == "linear"@ {
        match decay_parameter(decay, "width"@, parameter, printed) {
            Ok(width) => Ok(Decay::Linear { width }),
            Err(text) => Err(text),
        }
    } else if decay == "exponential"@ {
        match decay_parameter(decay, "half_life"@, parameter, printed) {
            Ok(half_life) => Ok(Decay::Exponential { half_life }),
            Err(text) => Err(text),
        }
    } else if decay == "logistic"@ {
        match decay_parameter(decay, "scale"@, parameter, printed) {
            Ok(scale) => Ok(Decay::Logistic { scale }),
            Err(text) => Err(text),
        }
    } else {
        Err(
            joined_text(
                seq![
                    "unknown decay "@,
                    quoted(decay),
                    ": the decay functions are step, linear, exponential, logistic"@,
                ],
            ),
        )
    }
}

fn read_parameter(decay: &str, name: &str, parameter: Option<u64>, printed: &str) -> (value: Result<
    u64,
    ValueError,
>)
    ensures
        match decay_parameter(decay@, name@, parameter, printed@) {
            Ok(expected) => value == Ok::<u64, ValueError>(expected),
            Err(text) => value matches Err(error) && error.message@ == text,
        },
{
    match parameter {
        None => {
            let form = debug_text(decay);
            let pieces: [&str; 5] = [
                "decay=",
                form.as_str(),
                " requires decay_param (",
                name,
                "), a positive finite number",
            ];
            let text = joined(&pieces);
            assert(pieces@.map_values(|piece: &str| piece@) =~= seq![
                "decay="@,
                quoted(decay@),
                " requires decay_param ("@,
                name@,
                "), a positive finite number"@,
            ]);
            Err(ValueError::new(text))
        },
        Some(value) => {
            if is_positive(value) {
                return Ok(value);
            }
            let pieces: [&str; 4] = [
                "decay_param (",
                name,
                ") must be a positive finite number, not ",
                printed,
            ];
            let text = joined(&pieces);
            assert(pieces@.map_values(|piece: &str| piece@) =~= seq![
                "decay_param ("@,
                name@,
                ") must be a positive finite number, not "@,
                printed@,
            ]);
            Err(ValueError::new(text))
        },
    }
}

/// Parses a decay and its one parameter, whose meaning depends on the
/// family.
pub fn parse_decay(decay: &str, parameter: Option<u64>, printed: &str) -> (parsed: Result<
    Decay,
    ValueError,
>)
    ensures
        match decay_outcome(decay@, parameter, printed@) {
            Ok(expected) => parsed == Ok::<Decay, ValueError>(expected),
            Err(text) => parsed matches Err(error) && error.message@ == text,
        },
{
    if same_text(decay, "step") {
        if parameter.is_some() {
            return Err(ValueError::new("decay='step' takes no decay_param".to_owned()));
        }
        return Ok(Decay::Step);
    }
    if same_text(decay, "linear") {
        return match read_parameter(decay, "width", parameter, printed) {
            Ok(width) => Ok(Decay::Linear { width }),
            Err(error) => Err(error),
        };
    }
    if same_text(decay, "exponential") {
        return match read_parameter(decay, "half_life", parameter, printed) {
            Ok(half_life) => Ok(Decay::Exponential { half_life }),
            Err(error) => Err(error),
        };
    }
    if same_text(decay, "logistic") {
        return match read_parameter(decay, "scale", parameter, printed) {
            Ok(scale) => Ok(Decay::Logistic { scale }),
            Err(error) => Err(error),
        };
    }
    let form = debug_text(decay);
    let pieces: [&str; 3] = [
        "unknown decay ",
        form.as_str(),
        ": the decay functions are step, linear, exponential, logistic",
    ];
    let text = joined(&pieces);
    assert(pieces@.map_values(|piece: &str| piece@) =~= seq![
        "unknown decay "@,
        quoted(decay@),
        ": the decay functions are step, linear, exponential, logistic"@,
    ]);
    Err(ValueError::new(text))
}

/// What an aggregation is refused for. A bad amount is named by its
/// position.
#[derive(Debug, Clone, Copy, PartialEq, Eq, Structural)]
pub enum AggregationFault {
    NoFields,
    DestinationsOverflow,
    BudgetsOverflow,
    Count { held: usize, expected: usize },
    NoBudgets,
    Budget { index: usize },
    Opportunity { index: usize },
}

/// The first position from `from` on that is no positive amount.
pub open spec fn first_unbudgeted(budgets: Seq<u64>, from: int) -> int
    decreases budgets.len() - from,
{
    if from >= budgets.len() || !f64_is_positive(budgets[from]) {
        from
    } else {
        first_unbudgeted(budgets, from + 1)
    }
}

/// The first position from `from` on that is no amount.
pub open spec fn first_unweighted(opportunities: Seq<u64>, from: int) -> int
    decreases opportunities.len() - from,
{
    if from >= opportunities.len() || !f64_is_cost(opportunities[from]) {
        from
    } else {
        first_unweighted(opportunities, from + 1)
    }
}

/// What is wrong with an aggregation over `destinations`: its fields, the
/// sizes of its results, the opportunity matrix, its budgets.
pub open spec fn aggregation_fault(
    destinations: usize,
    opportunities: Seq<u64>,
    fields: usize,
    budgets: Seq<u64>,
) -> Option<AggregationFault> {
    if fields == 0 {
        Some(AggregationFault::NoFields)
    } else if destinations * fields > usize::MAX {
        Some(AggregationFault::DestinationsOverflow)
    } else if budgets.len() * fields > usize::MAX {
        Some(AggregationFault::BudgetsOverflow)
    } else if opportunities.len() != destinations * fields {
        Some(
            AggregationFault::Count {
                held: opportunities.len() as usize,
                expected: (destinations * fields) as usize,
            },
        )
    } else if budgets.len() == 0 {
        Some(AggregationFault::NoBudgets)
    } else if first_unbudgeted(budgets, 0) < budgets.len() {
        Some(AggregationFault::Budget { index: first_unbudgeted(budgets, 0) as usize })
    } else if first_unweighted(opportunities, 0) < opportunities.len() {
        Some(AggregationFault::Opportunity { index: first_unweighted(opportunities, 0) as usize })
    } else {
        None
    }
}

/// Checks budgets and the opportunity matrix against the destination count.
pub fn validated_aggregation(
    destinations: usize,
    opportunities: &[u64],
    fields: usize,
    budgets: &[u64],
) -> (checked: Result<(), AggregationFault>)
    ensures
        checked == match aggregation_fault(destinations, opportunities@, fields, budgets@) {
            Some(fault) => Err::<(), AggregationFault>(fault),
            None => Ok(()),
        },
{
    if fields == 0 {
        return Err(AggregationFault::NoFields);
    }
    let expected: usize = match destinations.checked_mul(fields) {
        Some(expected) => expected,
        None => return Err(AggregationFault::DestinationsOverflow),
    };
    let budget_count: usize = budgets.len();
    if budget_count.checked_mul(fields).is_none() {
        return Err(AggregationFault::BudgetsOverflow);
    }
    if opportunities.len() != expected {
        return Err(AggregationFault::Count { held: opportunities.len(), expected });
    }
    if budgets.len() == 0 {
        return Err(AggregationFault::NoBudgets);
    }
    let mut index: usize = 0;
    while index < budgets.len()
        invariant
            index <= budgets@.len(),
            fields != 0,
            destinations * fields <= usize::MAX,
            budgets@.len() * fields <= usize::MAX,
            opportunities@.len() == destinations * fields,
            budgets@.len() > 0,
            first_unbudgeted(budgets@, 0) == first_unbudgeted(budgets@, index as int),
        decreases budgets.len() - index,
    {
        if !is_positive(budgets[index]) {
            return Err(AggregationFault::Budget { index });
        }
        index += 1;
    }
    let mut at: usize = 0;
    while at < opportunities.len()
        invariant
            at <= opportunities@.len(),
            fields != 0,
            destinations * fields <= usize::MAX,
            budgets@.len() * fields <= usize::MAX,
            opportunities@.len() == destinations * fields,
            budgets@.len() > 0,
            first_unbudgeted(budgets@, 0) == budgets@.len(),
            first_unweighted(opportunities@, 0) == first_unweighted(opportunities@, at as int),
        decreases opportunities.len() - at,
    {
        if !is_cost(opportunities[at]) {
            return Err(AggregationFault::Opportunity { index: at });
        }
        at += 1;
    }
    Ok(())
}

proof fn lemma_budgets_hold(budgets: Seq<u64>, from: int, at: int)
    requires
        0 <= from <= at < first_unbudgeted(budgets, from),
    ensures
        f64_is_positive(budgets[at]),
    decreases budgets.len() - from,
{
    if from < at {
        lemma_budgets_hold(budgets, from + 1, at);
    }
}

proof fn lemma_weights_hold(opportunities: Seq<u64>, from: int, at: int)
    requires
        0 <= from <= at < first_unweighted(opportunities, from),
    ensures
        f64_is_cost(opportunities[at]),
    decreases opportunities.len() - from,
{
    if from < at {
        lemma_weights_hold(opportunities, from + 1, at);
    }
}

/// An accepted aggregation holds one amount per destination and field, and
/// every budget is positive.
pub proof fn law_accepted_aggregations_hold(
    destinations: usize,
    opportunities: Seq<u64>,
    fields: usize,
    budgets: Seq<u64>,
)
    requires
        aggregation_fault(destinations, opportunities, fields, budgets) is None,
    ensures
        fields > 0,
        opportunities.len() == destinations * fields,
        budgets.len() > 0,
        forall|b: int| 0 <= b < budgets.len() ==> f64_is_positive(#[trigger] budgets[b]),
        forall|o: int| 0 <= o < opportunities.len() ==> f64_is_cost(#[trigger] opportunities[o]),
{
    assert forall|b: int| 0 <= b < budgets.len() implies f64_is_positive(#[trigger] budgets[b]) by {
        lemma_budgets_hold(budgets, 0, b);
    }
    assert forall|o: int| 0 <= o < opportunities.len() implies f64_is_cost(
        #[trigger] opportunities[o],
    ) by {
        lemma_weights_hold(opportunities, 0, o);
    }
}

/// The text of a refused aggregation; `printed` is the bad amount as it
/// prints.
pub open spec fn aggregation_text(fault: AggregationFault, printed: Seq<char>) -> Seq<char> {
    match fault {
        AggregationFault::NoFields => "fields must be at least 1"@,
        AggregationFault::DestinationsOverflow => "destinations * fields overflows"@,
        AggregationFault::BudgetsOverflow => "budgets * fields overflows"@,
        AggregationFault::Count { held, expected } => joined_text(
            seq![
                "opportunities carries "@,
                decimal_text(held as nat),
                " values, expected destinations * fields = "@,
                decimal_text(expected as nat),
            ],
        ),
        AggregationFault::NoBudgets => "budgets must name at least one cutoff"@,
        AggregationFault::Budget { .. } => joined_text(
            seq!["budgets must be positive finite numbers, not "@, printed],
        ),
        AggregationFault::Opportunity { .. } => joined_text(
            seq!["opportunity values must be finite and non-negative, not "@, printed],
        ),
    }
}

/// The error of a refused aggregation.
pub fn aggregation_error(fault: AggregationFault, printed: &str) -> (error: ValueError)
    ensures
        error.message@ == aggregation_text(fault, printed@),
{
    match fault {
        AggregationFault::NoFields => ValueError::new("fields must be at least 1".to_owned()),
        AggregationFault::DestinationsOverflow => ValueError::new(
            "destinations * fields overflows".to_owned(),
        ),
        AggregationFault::BudgetsOverflow => ValueError::new(
            "budgets * fields overflows".to_owned(),
        ),
        AggregationFault::Count { held, expected } => {
            let held_text = decimal(held as u64);
            let expected_text = decimal(expected as u64);
            let pieces: [&str; 4] = [
                "opportunities carries ",
                held_text.as_str(),
                " values, expected destinations * fields = ",
                expected_text.as_str(),
            ];
            let text = joined(&pieces);
            assert(pieces@.map_values(|piece: &str| piece@) =~= seq![
                "opportunities carries "@,
                decimal_text(held as nat),
                " values, expected destinations * fields = "@,
                decimal_text(expected as nat),
            ]);
            ValueError::new(text)
        },
        AggregationFault::NoBudgets => ValueError::new(
            "budgets must name at least one cutoff".to_owned(),
        ),
        AggregationFault::Budget { .. } => {
            let pieces: [&str; 2] = ["budgets must be positive finite numbers, not ", printed];
            let text = joined(&pieces);
            assert(pieces@.map_values(|piece: &str| piece@) =~= seq![
                "budgets must be positive finite numbers, not "@,
                printed@,
            ]);
            ValueError::new(text)
        },
        AggregationFault::Opportunity { .. } => {
            let pieces: [&str; 2] = [
                "opportunity values must be finite and non-negative, not ",
                printed,
            ];
            let text = joined(&pieces);
            assert(pieces@.map_values(|piece: &str| piece@) =~= seq![
                "opportunity values must be finite and non-negative, not "@,
                printed@,
            ]);
            ValueError::new(text)
        },
    }
}

/// A time cell as a cost: the maximum is unreached.
pub open spec fn reached_time(cell: u32) -> Option<u32> {
    if cell == UNREACHABLE {
        None
    } else {
        Some(cell)
    }
}

/// The costs of a row of times.
pub fn time_costs(row: &[u32]) -> (costs: Vec<Option<u32>>)
    ensures
        costs@ == row@.map_values(|cell: u32| reached_time(cell)),
{
    let mut costs: Vec<Option<u32>> = Vec::new();
    let mut index: usize = 0;
    while index < row.len()
        invariant
            index <= row@.len(),
            costs@ == row@.map_values(|cell: u32| reached_time(cell)).subrange(0, index as int),
        decreases row.len() - index,
    {
        let cell: u32 = row[index];
        costs.push(
            if cell == UNREACHABLE {
                None
            } else {
                Some(cell)
            },
        );
        index += 1;
        assert(costs@ =~= row@.map_values(|cell: u32| reached_time(cell)).subrange(
            0,
            index as int,
        ));
    }
    assert(costs@ =~= row@.map_values(|cell: u32| reached_time(cell)));
    costs
}

/// An amount as a cost: what is not finite is unreached.
pub open spec fn reached_amount(cell: u64) -> Option<u64> {
    if f64_is_finite(cell) {
        Some(cell)
    } else {
        None
    }
}

/// The costs of a row of amounts.
pub fn amount_costs(row: &[u64]) -> (costs: Vec<Option<u64>>)
    ensures
        costs@ == row@.map_values(|cell: u64| reached_amount(cell)),
{
    let mut costs: Vec<Option<u64>> = Vec::new();
    let mut index: usize = 0;
    while index < row.len()
        invariant
            index <= row@.len(),
            costs@ == row@.map_values(|cell: u64| reached_amount(cell)).subrange(0, index as int),
        decreases row.len() - index,
    {
        let cell: u64 = row[index];
        costs.push(
            if is_finite(cell) {
                Some(cell)
            } else {
                None
            },
        );
        index += 1;
        assert(costs@ =~= row@.map_values(|cell: u64| reached_amount(cell)).subrange(
            0,
            index as int,
        ));
    }
    assert(costs@ =~= row@.map_values(|cell: u64| reached_amount(cell)));
    costs
}

/// The costs of an arrival row at chosen stops.
pub fn target_costs(row: &Vec<Option<u32>>, targets: &Vec<u32>, departure: u32) -> (costs: Vec<
    Option<u32>,
>)
    requires
        departs_by(row@, departure),
        forall|t: int| 0 <= t < targets@.len() ==> #[trigger] targets@[t] < row@.len(),
    ensures
        costs@ == targets@.map_values(
            |target: u32|
                match row@[target as int] {
                    Some(arrival) => Some((arrival - departure) as u32),
                    None => None,
                },
        ),
        costs@.len() == targets@.len(),
        forall|t: int|
            0 <= t < targets@.len() ==> match #[trigger] costs@[t] {
                Some(seconds) => row@[targets@[t] as int] matches Some(arrival) && departure
                    + seconds == arrival,
                None => row@[targets@[t] as int] is None,
            },
{
    let ghost cost = |target: u32|
        match row@[target as int] {
            Some(arrival) => Some((arrival - departure) as u32),
            None => None,
        };
    let mut costs: Vec<Option<u32>> = Vec::new();
    let mut index: usize = 0;
    while index < targets.len()
        invariant
            index <= targets@.len(),
            departs_by(row@, departure),
            forall|t: int| 0 <= t < targets@.len() ==> #[trigger] targets@[t] < row@.len(),
            cost == |target: u32|
                match row@[target as int] {
                    Some(arrival) => Some((arrival - departure) as u32),
                    None => None,
                },
            costs@ == targets@.map_values(cost).subrange(0, index as int),
        decreases targets.len() - index,
    {
        assert(targets@[index as int] < row@.len());
        let target: usize = targets[index] as usize;
        assert(row@[target as int] matches Some(at) ==> at >= departure);
        costs.push(
            match row[target] {
                Some(arrival) => Some(arrival - departure),
                None => None,
            },
        );
        index += 1;
        assert(costs@ =~= targets@.map_values(cost).subrange(0, index as int));
    }
    assert(costs@ =~= targets@.map_values(cost));
    assert forall|t: int| 0 <= t < targets@.len() implies match #[trigger] costs@[t] {
        Some(seconds) => row@[targets@[t] as int] matches Some(arrival) && departure + seconds
            == arrival,
        None => row@[targets@[t] as int] is None,
    } by {
        assert(targets@[t] < row@.len());
        assert(row@[targets@[t] as int] matches Some(at) ==> at >= departure);
    }
    costs
}

/// How many ranks a nearest query keeps, and how far it looks.
#[derive(Debug, Clone, Copy, PartialEq, Eq, Structural)]
pub struct NearestPlan {
    pub ranks: usize,
    pub horizon: u64,
}

/// The plan of a nearest query. Ranks past the column count are always
/// absent, so they are left out; without columns there is nothing to look
/// at, however far. `printed` is the horizon as it prints.
pub open spec fn nearest_outcome(
    columns: usize,
    k: usize,
    max_cost: Option<u64>,
    printed: Seq<char>,
) -> Result<NearestPlan, Seq<char>> {
    let ranks = if k < columns {
        k
    } else {
        columns
    };
    if k == 0 {
        Err("k must be at least 1"@)
    } else if ranks == 0 {
        Ok(NearestPlan { ranks: 0, horizon: F64_INFINITY })
    } else {
        match max_cost {
            None => Ok(NearestPlan { ranks, horizon: F64_INFINITY }),
            Some(value) => if f64_is_positive(value) {
                Ok(NearestPlan { ranks, horizon: value })
            } else {
                Err(
                    joined_text(seq!["max_cost must be a positive finite number, not "@, printed]),
                )
            },
        }
    }
}

/// Plans a nearest query.
pub fn nearest_plan(columns: usize, k: usize, max_cost: Option<u64>, printed: &str) -> (plan: Result<
    NearestPlan,
    ValueError,
>)
    ensures
        match nearest_outcome(columns, k, max_cost, printed@) {
            Ok(expected) => plan == Ok::<NearestPlan, ValueError>(expected),
            Err(text) => plan matches Err(error) && error.message@ == text,
        },
{
    if k == 0 {
        return Err(ValueError::new("k must be at least 1".to_owned()));
    }
    let ranks: usize = if k < columns {
        k
    } else {
        columns
    };
    if ranks == 0 {
        return Ok(NearestPlan { ranks: 0, horizon: F64_INFINITY });
    }
    match max_cost {
        None => Ok(NearestPlan { ranks, horizon: F64_INFINITY }),
        Some(value) => {
            if is_positive(value) {
                return Ok(NearestPlan { ranks, horizon: value });
            }
            let pieces: [&str; 2] = ["max_cost must be a positive finite number, not ", printed];
            let text = joined(&pieces);
            assert(pieces@.map_values(|piece: &str| piece@) =~= seq![
                "max_cost must be a positive finite number, not "@,
                printed@,
            ]);
            Err(ValueError::new(text))
        },
    }
}

/// The destinations of one origin by rank, absent ranks at minus one.
pub open spec fn padded_indices(pairs: Seq<(usize, u64)>, ranks: nat) -> Seq<i64> {
    Seq::new(
        ranks,
        |rank: int|
            if rank < pairs.len() {
                pairs[rank].0 as i64
            } else {
                -1i64
            },
    )
}

/// The costs of one origin by rank, absent ranks not a number.
pub open spec fn padded_costs(pairs: Seq<(usize, u64)>, ranks: nat) -> Seq<u64> {
    Seq::new(
        ranks,
        |rank: int|
            if rank < pairs.len() {
                pairs[rank].1
            } else {
                UNKNOWN
            },
    )
}

/// The ranked destinations of every origin as padded row-major twins.
pub fn nearest_rows(ranked: &Vec<Vec<(usize, u64)>>, ranks: usize) -> (twins: (Vec<i64>, Vec<u64>))
    requires
        forall|o: int| 0 <= o < ranked@.len() ==> (#[trigger] ranked@[o])@.len() <= ranks,
        forall|o: int, r: int|
            0 <= o < ranked@.len() && 0 <= r < ranked@[o]@.len() ==> (
            #[trigger] ranked@[o]@[r]).0 <= i64::MAX,
    ensures
        twins.0@ == stacked(
            ranked@.map_values(|pairs: Vec<(usize, u64)>| padded_indices(pairs@, ranks as nat)),
        ),
        twins.1@ == stacked(
            ranked@.map_values(|pairs: Vec<(usize, u64)>| padded_costs(pairs@, ranks as nat)),
        ),
{
    let ghost index_rows = ranked@.map_values(
        |pairs: Vec<(usize, u64)>| padded_indices(pairs@, ranks as nat),
    );
    let ghost cost_rows = ranked@.map_values(
        |pairs: Vec<(usize, u64)>| padded_costs(pairs@, ranks as nat),
    );
    let mut indices: Vec<i64> = Vec::new();
    let mut costs: Vec<u64> = Vec::new();
    let mut origin: usize = 0;
    assert(index_rows.subrange(0, 0) =~= Seq::empty());
    assert(cost_rows.subrange(0, 0) =~= Seq::empty());
    while origin < ranked.len()
        invariant
            origin <= ranked@.len(),
            forall|o: int| 0 <= o < ranked@.len() ==> (#[trigger] ranked@[o])@.len() <= ranks,
            forall|o: int, r: int|
                0 <= o < ranked@.len() && 0 <= r < ranked@[o]@.len() ==> (
                #[trigger] ranked@[o]@[r]).0 <= i64::MAX,
            index_rows == ranked@.map_values(
                |pairs: Vec<(usize, u64)>| padded_indices(pairs@, ranks as nat),
            ),
            cost_rows == ranked@.map_values(
                |pairs: Vec<(usize, u64)>| padded_costs(pairs@, ranks as nat),
            ),
            indices@ == stacked(index_rows.subrange(0, origin as int)),
            costs@ == stacked(cost_rows.subrange(0, origin as int)),
        decreases ranked.len() - origin,
    {
        let pairs = &ranked[origin];
        assert(ranked@[origin as int]@.len() <= ranks);
        let ghost held = indices@;
        let ghost held_costs = costs@;
        let ghost line = padded_indices(pairs@, ranks as nat);
        let ghost cost_line = padded_costs(pairs@, ranks as nat);
        let mut rank: usize = 0;
        assert(held + line.subrange(0, 0) =~= held);
        assert(held_costs + cost_line.subrange(0, 0) =~= held_costs);
        while rank < ranks
            invariant
                rank <= ranks,
                origin < ranked@.len(),
                pairs@ == ranked@[origin as int]@,
                pairs@.len() <= ranks,
                forall|o: int, r: int|
                    0 <= o < ranked@.len() && 0 <= r < ranked@[o]@.len() ==> (
                    #[trigger] ranked@[o]@[r]).0 <= i64::MAX,
                line == padded_indices(pairs@, ranks as nat),
                cost_line == padded_costs(pairs@, ranks as nat),
                indices@ == held + line.subrange(0, rank as int),
                costs@ == held_costs + cost_line.subrange(0, rank as int),
            decreases ranks - rank,
        {
            if rank < pairs.len() {
                let (destination, cost): (usize, u64) = pairs[rank];
                assert(ranked@[origin as int]@[rank as int].0 <= i64::MAX);
                indices.push(destination as i64);
                costs.push(cost);
            } else {
                indices.push(-1);
                costs.push(UNKNOWN);
            }
            rank += 1;
            assert(indices@ =~= held + line.subrange(0, rank as int));
            assert(costs@ =~= held_costs + cost_line.subrange(0, rank as int));
        }
        proof {
            assert(line.subrange(0, ranks as int) =~= line);
            assert(cost_line.subrange(0, ranks as int) =~= cost_line);
            lemma_stacked_push(index_rows.subrange(0, origin as int), line);
            lemma_stacked_push(cost_rows.subrange(0, origin as int), cost_line);
            assert(index_rows.subrange(0, origin as int).push(line) =~= index_rows.subrange(
                0,
                origin + 1,
            ));
            assert(cost_rows.subrange(0, origin as int).push(cost_line) =~= cost_rows.subrange(
                0,
                origin + 1,
            ));
        }
        origin += 1;
    }
    assert(index_rows.subrange(0, ranked@.len() as int) =~= index_rows);
    assert(cost_rows.subrange(0, ranked@.len() as int) =~= cost_rows);
    (indices, costs)
}

/// A reached vertex with a place: latitude, longitude and cost.
pub open spec fn placed_vertex(reached: (u32, u64), positions: Seq<(u64, u64)>) -> Option<
    (u64, u64, u64),
> {
    let (lon, lat) = positions[reached.0 as int];
    if f64_is_finite(lon) && f64_is_finite(lat) {
        Some((lat, lon, reached.1))
    } else {
        None
    }
}

/// The placed vertices among the first `count` reached.
pub open spec fn field_upto(reached: Seq<(u32, u64)>, positions: Seq<(u64, u64)>, count: int) -> Seq<
    (u64, u64, u64),
>
    decreases count,
{
    if count <= 0 {
        Seq::empty()
    } else {
        match placed_vertex(reached[count - 1], positions) {
            Some(place) => field_upto(reached, positions, count - 1).push(place),
            None => field_upto(reached, positions, count - 1),
        }
    }
}

/// A catchment field as columns.
pub struct FieldColumns {
    pub latitudes: Vec<u64>,
    pub longitudes: Vec<u64>,
    pub costs: Vec<u64>,
}

/// The reached vertices as columns; `positions` are longitude and latitude
/// by vertex, and a vertex without a place is left out.
pub fn field_columns(reached: &Vec<(u32, u64)>, positions: &Vec<(u64, u64)>) -> (columns: FieldColumns)
    requires
        forall|r: int| 0 <= r < reached@.len() ==> (#[trigger] reached@[r]).0 < positions@.len(),
    ensures
        ({
            let field = field_upto(reached@, positions@, reached@.len() as int);
            &&& columns.latitudes@ == field.map_values(|place: (u64, u64, u64)| place.0)
            &&& columns.longitudes@ == field.map_values(|place: (u64, u64, u64)| place.1)
            &&& columns.costs@ == field.map_values(|place: (u64, u64, u64)| place.2)
        }),
{
    let ghost first = |place: (u64, u64, u64)| place.0;
    let ghost second = |place: (u64, u64, u64)| place.1;
    let ghost third = |place: (u64, u64, u64)| place.2;
    let mut latitudes: Vec<u64> = Vec::new();
    let mut longitudes: Vec<u64> = Vec::new();
    let mut costs: Vec<u64> = Vec::new();
    let mut index: usize = 0;
    proof {
        let none = field_upto(reached@, positions@, 0);
        assert(latitudes@ =~= none.map_values(first));
        assert(longitudes@ =~= none.map_values(second));
        assert(costs@ =~= none.map_values(third));
    }
    while index < reached.len()
        invariant
            index <= reached@.len(),
            forall|r: int|
                0 <= r < reached@.len() ==> (#[trigger] reached@[r]).0 < positions@.len(),
            first == |place: (u64, u64, u64)| place.0,
            second == |place: (u64, u64, u64)| place.1,
            third == |place: (u64, u64, u64)| place.2,
            latitudes@ == field_upto(reached@, positions@, index as int).map_values(first),
            longitudes@ == field_upto(reached@, positions@, index as int).map_values(second),
            costs@ == field_upto(reached@, positions@, index as int).map_values(third),
        decreases reached.len() - index,
    {
        assert(reached@[index as int].0 < positions@.len());
        let (vertex, cost): (u32, u64) = reached[index];
        let (lon, lat): (u64, u64) = positions[vertex as usize];
        if is_finite(lon) && is_finite(lat) {
            latitudes.push(lat);
            longitudes.push(lon);
            costs.push(cost);
        }
        index += 1;
        proof {
            let field = field_upto(reached@, positions@, index as int);
            assert(latitudes@ =~= field.map_values(first));
            assert(longitudes@ =~= field.map_values(second));
            assert(costs@ =~= field.map_values(third));
        }
    }
    FieldColumns { latitudes, longitudes, costs }
}

/// The seeds of the first `count` offers: each offer at every place its stop
/// meets the streets.
pub open spec fn offered_seeds<T>(offers: Seq<T>, snaps: Seq<Vec<Snap>>, count: int) -> Seq<
    (Snap, T),
>
    decreases count,
{
    if count <= 0 {
        Seq::empty()
    } else {
        offered_seeds(offers, snaps, count - 1) + snaps[count - 1]@.map_values(
            |snap: Snap| (snap, offers[count - 1]),
        )
    }
}

/// The origin's own seed, where it lies on the streets.
pub open spec fn origin_seed<T>(origin: Option<Snap>, zero: T) -> Seq<(Snap, T)> {
    match origin {
        Some(snap) => seq![(snap, zero)],
        None => Seq::empty(),
    }
}

/// The seeds of a catchment field: the origin at zero, then every listed
/// stop's street links at that stop's own cost. An origin off the streets
/// still spreads from its reached stops.
pub fn walk_seeds<T: Copy>(
    origin: Option<Snap>,
    zero: T,
    offers: &Vec<T>,
    snaps: &Vec<Vec<Snap>>,
) -> (seeds: Vec<(Snap, T)>)
    requires
        offers@.len() == snaps@.len(),
    ensures
        seeds@ == origin_seed(origin, zero) + offered_seeds(
            offers@,
            snaps@,
            offers@.len() as int,
        ),
{
    let mut seeds: Vec<(Snap, T)> = Vec::new();
    if let Some(snap) = origin {
        seeds.push((snap, zero));
    }
    let ghost lead = origin_seed(origin, zero);
    assert(seeds@ =~= lead);
    let mut index: usize = 0;
    assert(lead + offered_seeds(offers@, snaps@, 0) =~= lead);
    while index < offers.len()
        invariant
            index <= offers@.len() == snaps@.len(),
            seeds@ == lead + offered_seeds(offers@, snaps@, index as int),
        decreases offers.len() - index,
    {
        let offer: T = offers[index];
        let places = &snaps[index];
        let ghost held = seeds@;
        let ghost added = places@.map_values(|snap: Snap| (snap, offer));
        let mut at: usize = 0;
        assert(held + added.subrange(0, 0) =~= held);
        while at < places.len()
            invariant
                at <= places@.len(),
                added == places@.map_values(|snap: Snap| (snap, offer)),
                seeds@ == held + added.subrange(0, at as int),
            decreases places.len() - at,
        {
            seeds.push((places[at], offer));
            at += 1;
            assert(seeds@ =~= held + added.subrange(0, at as int));
        }
        proof {
            assert(added.subrange(0, added.len() as int) =~= added);
            assert(added =~= snaps@[index as int]@.map_values(
                |snap: Snap| (snap, offers@[index + 1 - 1]),
            ));
            assert(lead + offered_seeds(offers@, snaps@, index + 1) =~= held + added);
        }
        index += 1;
    }
    seeds
}

pub open spec fn outside_text(stop: u32) -> Seq<char> {
    joined_text(
        seq![
            "stop index "@,
            decimal_text(stop as nat),
            " is outside the network's stop range"@,
        ],
    )
}

/// The first offer from `from` on whose stop is not the network's.
pub open spec fn first_outside(offers: Seq<(u32, u64)>, stops: nat, from: int) -> int
    decreases offers.len() - from,
{
    if from >= offers.len() || offers[from].0 >= stops {
        from
    } else {
        first_outside(offers, stops, from + 1)
    }
}

/// The linked offers among the first `count`.
pub open spec fn linked_seeds(offers: Seq<(u32, u64)>, links: Seq<Option<Snap>>, count: int) -> Seq<
    (Snap, u64),
>
    decreases count,
{
    if count <= 0 {
        Seq::empty()
    } else {
        match links[offers[count - 1].0 as int] {
            Some(snap) => linked_seeds(offers, links, count - 1).push((snap, offers[count - 1].1)),
            None => linked_seeds(offers, links, count - 1),
        }
    }
}

/// The seeds of a profile-aware catchment field: the origin at zero, then
/// each stop's link for the mode at its cost; a stop that is not the
/// network's is refused.
pub fn directed_seeds(origin: Option<Snap>, offers: &Vec<(u32, u64)>, links: &Vec<Option<Snap>>) -> (
    seeds: Result<Vec<(Snap, u64)>, ValueError>)
    ensures
        ({
            let outside = first_outside(offers@, links@.len(), 0);
            if outside < offers@.len() {
                seeds matches Err(error) && error.message@ == outside_text(offers@[outside].0)
            } else {
                seeds matches Ok(seeds) && seeds@ == origin_seed(origin, 0u64) + linked_seeds(
                    offers@,
                    links@,
                    offers@.len() as int,
                )
            }
        }),
{
    let mut seeds: Vec<(Snap, u64)> = Vec::new();
    if let Some(snap) = origin {
        seeds.push((snap, 0));
    }
    let ghost lead = origin_seed(origin, 0u64);
    assert(seeds@ =~= lead);
    assert(lead + linked_seeds(offers@, links@, 0) =~= lead);
    let mut index: usize = 0;
    while index < offers.len()
        invariant
            index <= offers@.len(),
            first_outside(offers@, links@.len(), 0) == first_outside(
                offers@,
                links@.len(),
                index as int,
            ),
            seeds@ == lead + linked_seeds(offers@, links@, index as int),
        decreases offers.len() - index,
    {
        let (stop, seconds): (u32, u64) = offers[index];
        if stop as usize >= links.len() {
            let number = decimal(stop as u64);
            let pieces: [&str; 3] = [
                "stop index ",
                number.as_str(),
                " is outside the network's stop range",
            ];
            let text = joined(&pieces);
            assert(pieces@.map_values(|piece: &str| piece@) =~= seq![
                "stop index "@,
                decimal_text(stop as nat),
                " is outside the network's stop range"@,
            ]);
            return Err(ValueError::new(text));
        }
        if let Some(snap) = links[stop as usize] {
            let ghost held = seeds@;
            seeds.push((snap, seconds));
            assert(seeds@ =~= lead + linked_seeds(offers@, links@, index + 1));
        }
        index += 1;
    }
    Ok(seeds)
}

/// A decay is accepted under its own name alone: the step without a
/// parameter, each other one with a positive finite parameter, which it
/// keeps.
pub proof fn law_decays_keep_their_parameter(
    decay: Seq<char>,
    parameter: Option<u64>,
    printed: Seq<char>,
)
    ensures
        ({
            let outcome = decay_outcome(decay, parameter, printed);
            let sound = parameter matches Some(value) && f64_is_positive(value);
            &&& outcome matches Ok(Decay::Step) ==> decay == "step"@
            &&& outcome matches Ok(Decay::Linear { width }) ==> decay == "linear"@ && parameter
                == Some(width)
            &&& outcome matches Ok(Decay::Exponential { half_life }) ==> decay == "exponential"@
                && parameter == Some(half_life)
            &&& outcome matches Ok(Decay::Logistic { scale }) ==> decay == "logistic"@ && parameter
                == Some(scale)
            &&& decay == "step"@ ==> (outcome is Ok <==> parameter is None)
            &&& decay == "linear"@ || decay == "exponential"@ || decay == "logistic"@ ==> (
            outcome is Ok <==> sound)
            &&& !(decay == "step"@ || decay == "linear"@ || decay == "exponential"@ || decay
                == "logistic"@) ==> outcome is Err
        }),
{
    reveal_strlit("step");
    reveal_strlit("linear");
    reveal_strlit("exponential");
    reveal_strlit("logistic");
    assert("step"@.len() == 4);
    assert("linear"@.len() == 6);
    assert("exponential"@.len() == 11);
    assert("logistic"@.len() == 8);
}

proof fn lemma_first_unbudgeted(budgets: Seq<u64>, from: int)
    requires
        0 <= from <= budgets.len(),
    ensures
        from <= first_unbudgeted(budgets, from) <= budgets.len(),
        first_unbudgeted(budgets, from) < budgets.len() ==> !f64_is_positive(
            budgets[first_unbudgeted(budgets, from)],
        ),
        forall|b: int|
            from <= b < first_unbudgeted(budgets, from) ==> f64_is_positive(#[trigger] budgets[b]),
    decreases budgets.len() - from,
{
    if from < budgets.len() && f64_is_positive(budgets[from]) {
        lemma_first_unbudgeted(budgets, from + 1);
    }
}

proof fn lemma_first_unweighted(opportunities: Seq<u64>, from: int)
    requires
        0 <= from <= opportunities.len(),
    ensures
        from <= first_unweighted(opportunities, from) <= opportunities.len(),
        first_unweighted(opportunities, from) < opportunities.len() ==> !f64_is_cost(
            opportunities[first_unweighted(opportunities, from)],
        ),
        forall|o: int|
            from <= o < first_unweighted(opportunities, from) ==> f64_is_cost(
                #[trigger] opportunities[o],
            ),
    decreases opportunities.len() - from,
{
    if from < opportunities.len() && f64_is_cost(opportunities[from]) {
        lemma_first_unweighted(opportunities, from + 1);
    }
}

/// Each fault of an aggregation names what is wrong: a bad budget is the
/// first that is not positive, a bad opportunity the first that is no amount,
/// and a count is the one held beside the one owed.
pub proof fn law_aggregation_faults_name_their_cause(
    destinations: usize,
    opportunities: Seq<u64>,
    fields: usize,
    budgets: Seq<u64>,
)
    requires
        opportunities.len() <= usize::MAX,
        budgets.len() <= usize::MAX,
    ensures
        match aggregation_fault(destinations, opportunities, fields, budgets) {
            Some(AggregationFault::NoFields) => fields == 0,
            Some(AggregationFault::DestinationsOverflow) => destinations * fields > usize::MAX,
            Some(AggregationFault::BudgetsOverflow) => budgets.len() * fields > usize::MAX,
            Some(AggregationFault::Count { held, expected }) => held == opportunities.len()
                && expected == destinations * fields && held != expected,
            Some(AggregationFault::NoBudgets) => budgets.len() == 0,
            Some(AggregationFault::Budget { index }) => index < budgets.len() && !f64_is_positive(
                budgets[index as int],
            ) && forall|b: int|
                0 <= b < index ==> f64_is_positive(#[trigger] budgets[b]),
            Some(AggregationFault::Opportunity { index }) => index < opportunities.len()
                && !f64_is_cost(opportunities[index as int]) && (forall|o: int|
                0 <= o < index ==> f64_is_cost(#[trigger] opportunities[o])) && forall|b: int|
                0 <= b < budgets.len() ==> f64_is_positive(#[trigger] budgets[b]),
            None => true,
        },
{
    lemma_first_unbudgeted(budgets, 0);
    lemma_first_unweighted(opportunities, 0);
}

/// A cell is a cost as it stands, except where it means unreached: the
/// largest time, or an amount that is not finite.
pub proof fn law_costs_are_the_reached_cells(time: u32, amount: u64)
    ensures
        reached_time(time) is None <==> time == u32::MAX,
        reached_time(time) matches Some(seconds) ==> seconds == time,
        reached_amount(amount) is None <==> !f64_is_finite(amount),
        reached_amount(amount) matches Some(cost) ==> cost == amount,
{
}

/// A nearest query is accepted where it asks for a rank at all and its limit,
/// if it has one that matters, is positive. It looks at no more ranks than it
/// asks for or there are columns, and at no fewer than the lesser of the two,
/// up to its limit or without one.
pub proof fn law_nearest_plans(
    columns: usize,
    k: usize,
    max_cost: Option<u64>,
    printed: Seq<char>,
)
    ensures
        ({
            let outcome = nearest_outcome(columns, k, max_cost, printed);
            &&& outcome is Ok <==> k > 0 && (columns == 0 || (max_cost matches Some(limit)
                ==> f64_is_positive(limit)))
            &&& outcome matches Ok(plan) ==> {
                &&& plan.ranks <= k && plan.ranks <= columns
                &&& plan.ranks == k || plan.ranks == columns
                &&& plan.ranks > 0 ==> (max_cost matches Some(limit) ==> plan.horizon == limit)
                &&& plan.ranks == 0 || max_cost is None ==> plan.horizon == 0x7FF0_0000_0000_0000
            }
        }),
{
}

/// A rank that was found holds its destination and cost; one that was not
/// holds minus one and what is no number.
pub proof fn law_ranks_are_padded(pairs: Seq<(usize, u64)>, ranks: nat, rank: int)
    requires
        0 <= rank < ranks,
        forall|r: int| 0 <= r < pairs.len() ==> (#[trigger] pairs[r]).0 <= i64::MAX,
    ensures
        padded_indices(pairs, ranks).len() == ranks,
        padded_costs(pairs, ranks).len() == ranks,
        rank < pairs.len() ==> padded_indices(pairs, ranks)[rank] == pairs[rank].0 && padded_costs(
            pairs,
            ranks,
        )[rank] == pairs[rank].1,
        rank >= pairs.len() ==> padded_indices(pairs, ranks)[rank] == -1 && f64_is_nan(
            padded_costs(pairs, ranks)[rank],
        ),
{
}

/// A vertex is placed exactly where its position is finite: its longitude
/// comes first in the position and second in the place.
pub proof fn law_placed_vertices_keep_their_position(
    reached: (u32, u64),
    positions: Seq<(u64, u64)>,
)
    ensures
        ({
            let position = positions[reached.0 as int];
            let place = placed_vertex(reached, positions);
            &&& place is Some <==> f64_is_finite(position.0) && f64_is_finite(position.1)
            &&& place matches Some((lat, lon, cost)) ==> lat == position.1 && lon == position.0
                && cost == reached.1
        }),
{
}

/// Whether a place is a reached vertex's.
pub open spec fn is_reached(
    reached: Seq<(u32, u64)>,
    positions: Seq<(u64, u64)>,
    count: int,
    place: (u64, u64, u64),
) -> bool {
    exists|i: int|
        0 <= i < count && positions[(#[trigger] reached[i]).0 as int] == (place.1, place.0)
            && reached[i].1 == place.2
}

/// A field lists every reached vertex that has a finite position, with its
/// latitude, longitude and cost, and nothing else.
pub proof fn law_fields_list_the_placed_vertices(
    reached: Seq<(u32, u64)>,
    positions: Seq<(u64, u64)>,
    count: int,
)
    requires
        0 <= count <= reached.len(),
    ensures
        ({
            let field = field_upto(reached, positions, count);
            &&& field.len() <= count
            &&& forall|i: int|
                0 <= i < count && f64_is_finite(positions[(#[trigger] reached[i]).0 as int].0)
                    && f64_is_finite(positions[reached[i].0 as int].1) ==> field.contains(
                    (
                        positions[reached[i].0 as int].1,
                        positions[reached[i].0 as int].0,
                        reached[i].1,
                    ),
                )
            &&& forall|k: int|
                0 <= k < field.len() ==> f64_is_finite((#[trigger] field[k]).0) && f64_is_finite(
                    field[k].1,
                ) && is_reached(reached, positions, count, field[k])
        }),
    decreases count,
{
    if count > 0 {
        law_fields_list_the_placed_vertices(reached, positions, count - 1);
        let before = field_upto(reached, positions, count - 1);
        let field = field_upto(reached, positions, count);
        assert forall|i: int|
            0 <= i < count && f64_is_finite(positions[(#[trigger] reached[i]).0 as int].0)
                && f64_is_finite(positions[reached[i].0 as int].1) implies field.contains(
            (
                positions[reached[i].0 as int].1,
                positions[reached[i].0 as int].0,
                reached[i].1,
            ),
        ) by {
            let place = (
                positions[reached[i].0 as int].1,
                positions[reached[i].0 as int].0,
                reached[i].1,
            );
            if i < count - 1 {
                assert(before.contains(place));
                let at = choose|at: int| 0 <= at < before.len() && before[at] == place;
                assert(field[at] == place);
            } else {
                assert(field[field.len() - 1] == place);
            }
        }
        assert forall|k: int| 0 <= k < field.len() implies f64_is_finite((#[trigger] field[k]).0)
            && f64_is_finite(field[k].1) && is_reached(reached, positions, count, field[k]) by {
            if k < before.len() {
                assert(field[k] == before[k]);
                assert(is_reached(reached, positions, count - 1, before[k]));
                let i = choose|i: int|
                    0 <= i < count - 1 && positions[(#[trigger] reached[i]).0 as int] == (
                        before[k].1,
                        before[k].0,
                    ) && reached[i].1 == before[k].2;
                assert(reached[i].1 == field[k].2);
            } else {
                assert(reached[count - 1].1 == field[k].2);
            }
        }
    }
}

/// Whether a seed is an offer at one of its own places.
pub open spec fn offered_at<T>(
    offers: Seq<T>,
    snaps: Seq<Vec<Snap>>,
    count: int,
    seed: (Snap, T),
) -> bool {
    exists|o: int|
        0 <= o < count && #[trigger] offers[o] == seed.1 && snaps[o]@.contains(seed.0)
}

/// The walk's seeds are every offer at each of its places, and nothing else.
pub proof fn law_offers_are_seeded_at_their_places<T>(
    offers: Seq<T>,
    snaps: Seq<Vec<Snap>>,
    count: int,
)
    requires
        0 <= count <= offers.len(),
        offers.len() == snaps.len(),
    ensures
        forall|o: int, p: int|
            0 <= o < count && 0 <= p < snaps[o]@.len() ==> offered_seeds(
                offers,
                snaps,
                count,
            ).contains((#[trigger] snaps[o]@[p], offers[o])),
        forall|k: int|
            0 <= k < offered_seeds(offers, snaps, count).len() ==> offered_at(
                offers,
                snaps,
                count,
                #[trigger] offered_seeds(offers, snaps, count)[k],
            ),
    decreases count,
{
    if count > 0 {
        law_offers_are_seeded_at_their_places(offers, snaps, count - 1);
        let before = offered_seeds(offers, snaps, count - 1);
        let own = snaps[count - 1]@;
        let seeds = offered_seeds(offers, snaps, count);
        assert(seeds.len() == before.len() + own.len());
        assert forall|o: int, p: int| 0 <= o < count && 0 <= p < snaps[o]@.len() implies seeds.contains(
            (#[trigger] snaps[o]@[p], offers[o]),
        ) by {
            let seed = (snaps[o]@[p], offers[o]);
            if o < count - 1 {
                assert(before.contains(seed));
                let at = choose|at: int| 0 <= at < before.len() && before[at] == seed;
                assert(seeds[at] == seed);
            } else {
                assert(seeds[before.len() + p] == seed);
            }
        }
        assert forall|k: int| 0 <= k < seeds.len() implies offered_at(
            offers,
            snaps,
            count,
            #[trigger] seeds[k],
        ) by {
            if k < before.len() {
                assert(seeds[k] == before[k]);
                assert(offered_at(offers, snaps, count - 1, before[k]));
                let o = choose|o: int|
                    0 <= o < count - 1 && #[trigger] offers[o] == before[k].1
                        && snaps[o]@.contains(before[k].0);
                assert(offers[o] == seeds[k].1);
            } else {
                assert(own[k - before.len()] == seeds[k].0);
                assert(offers[count - 1] == seeds[k].1);
            }
        }
    }
}

/// The origin seeds the walk at no cost where it lies on the streets, and
/// not at all elsewhere.
pub proof fn law_origins_seed_at_no_cost<T>(origin: Option<Snap>, zero: T)
    ensures
        origin is None ==> origin_seed(origin, zero).len() == 0,
        origin matches Some(snap) ==> origin_seed(origin, zero).len() == 1 && origin_seed(
            origin,
            zero,
        )[0].0 == snap && origin_seed(origin, zero)[0].1 == zero,
{
}

/// The refused offer is the first whose stop is not the network's; there is
/// none exactly where every offer's stop is.
pub proof fn law_the_first_outside_offer(offers: Seq<(u32, u64)>, stops: nat, from: int)
    requires
        0 <= from <= offers.len(),
    ensures
        from <= first_outside(offers, stops, from) <= offers.len(),
        first_outside(offers, stops, from) < offers.len() ==> offers[first_outside(
            offers,
            stops,
            from,
        )].0 >= stops,
        forall|o: int|
            from <= o < first_outside(offers, stops, from) ==> (#[trigger] offers[o]).0 < stops,
    decreases offers.len() - from,
{
    if from < offers.len() && offers[from].0 < stops {
        law_the_first_outside_offer(offers, stops, from + 1);
    }
}

/// Whether a seed is an offer at its own stop's link.
pub open spec fn linked_offer(
    offers: Seq<(u32, u64)>,
    links: Seq<Option<Snap>>,
    count: int,
    seed: (Snap, u64),
) -> bool {
    exists|o: int|
        0 <= o < count && (#[trigger] offers[o]).1 == seed.1 && links[offers[o].0 as int] == Some(
            seed.0,
        )
}

/// The directed seeds are every offer whose stop is linked, at that link,
/// and nothing else.
pub proof fn law_linked_offers_are_seeded(
    offers: Seq<(u32, u64)>,
    links: Seq<Option<Snap>>,
    count: int,
)
    requires
        0 <= count <= offers.len(),
    ensures
        ({
            let seeds = linked_seeds(offers, links, count);
            &&& seeds.len() <= count
            &&& forall|o: int|
                0 <= o < count && links[(#[trigger] offers[o]).0 as int] is Some ==> seeds.contains(
                    (links[offers[o].0 as int]->0, offers[o].1),
                )
            &&& forall|k: int|
                0 <= k < seeds.len() ==> linked_offer(offers, links, count, #[trigger] seeds[k])
        }),
    decreases count,
{
    if count > 0 {
        law_linked_offers_are_seeded(offers, links, count - 1);
        let before = linked_seeds(offers, links, count - 1);
        let seeds = linked_seeds(offers, links, count);
        assert forall|o: int|
            0 <= o < count && links[(#[trigger] offers[o]).0 as int] is Some implies seeds.contains(
            (links[offers[o].0 as int]->0, offers[o].1),
        ) by {
            let seed = (links[offers[o].0 as int]->0, offers[o].1);
            if o < count - 1 {
                assert(before.contains(seed));
                let at = choose|at: int| 0 <= at < before.len() && before[at] == seed;
                assert(seeds[at] == seed);
            } else {
                assert(seeds[seeds.len() - 1] == seed);
            }
        }
        assert forall|k: int| 0 <= k < seeds.len() implies linked_offer(
            offers,
            links,
            count,
            #[trigger] seeds[k],
        ) by {
            if k < before.len() {
                assert(seeds[k] == before[k]);
                assert(linked_offer(offers, links, count - 1, before[k]));
                let o = choose|o: int|
                    0 <= o < count - 1 && (#[trigger] offers[o]).1 == before[k].1
                        && links[offers[o].0 as int] == Some(before[k].0);
                assert(offers[o].1 == seeds[k].1);
            } else {
                assert(offers[count - 1].1 == seeds[k].1);
            }
        }
    }
}

} // verus!
