//! Cost matrices: rows per origin, walking folded in, and their columns.

use crate::bytes::{equal, f64_equal, f64_is_nan, f64_less, f64_rank, less};
use crate::options::{debug_text, quoted};
use crate::rows::{lemma_stacked_push, law_stacked_holds_the_rows, row_views, stacked};
use crate::text::{joined, joined_text, same_text, ValueError};
use vstd::prelude::*;

verus! {

/// A double's zero.
pub const ZERO: u64 = 0;

/// A double's quiet not-a-number, the value of an amount that is not known.
pub const UNKNOWN: u64 = 0x7FF8_0000_0000_0000;

/// The aggregated costs of one pair; amounts are doubles' bits.
#[derive(Debug, Clone)]
pub struct CostRow {
    pub to: u32,
    pub seconds: u32,
    pub rides: u32,
    pub transit_meters: u64,
    pub walk_meters: u64,
    pub emission_grams: u64,
    pub fare: u64,
    pub geometry: Option<Vec<u8>>,
}

/// What a windowed candidate fold minimises.
#[derive(Debug, Clone, Copy, PartialEq, Eq, Structural)]
pub enum Objective {
    Emissions,
    Fare,
}

pub open spec fn objective_outcome(objective: Seq<char>, fares: bool) -> Result<
    Objective,
    Seq<char>,
> {
    if objective == "emissions"@ {
        Ok(Objective::Emissions)
    } else if objective == "fare"@ {
        if fares {
            Ok(Objective::Fare)
        } else {
            Err("the 'fare' objective requires fare tables"@)
        }
    } else {
        Err(joined_text(seq!["objective must be 'emissions' or 'fare', not "@, quoted(objective)]))
    }
}

/// Parses the objective a windowed candidate fold minimises; `fares` says
/// whether fare tables are there.
pub fn parse_objective(objective: &str, fares: bool) -> (parsed: Result<Objective, ValueError>)
    ensures
        match objective_outcome(objective@, fares) {
            Ok(expected) => parsed == Ok::<Objective, ValueError>(expected),
            Err(message) => parsed matches Err(error) && error.message@ == message,
        },
{
    if same_text(objective, "emissions") {
        return Ok(Objective::Emissions);
    }
    if same_text(objective, "fare") {
        if fares {
            return Ok(Objective::Fare);
        }
        return Err(ValueError::new("the 'fare' objective requires fare tables".to_owned()));
    }
    let form = debug_text(objective);
    let pieces: [&str; 2] = ["objective must be 'emissions' or 'fare', not ", form.as_str()];
    let text = joined(&pieces);
    assert(pieces@.map_values(|piece: &str| piece@) =~= seq![
        "objective must be 'emissions' or 'fare', not "@,
        quoted(objective@),
    ]);
    Err(ValueError::new(text))
}

/// When walking takes a cell.
#[derive(Debug, Clone, Copy, PartialEq, Eq, Structural)]
pub enum WalkRule {
    /// The fastest journey: a walk that is faster, or as fast as a ridden
    /// one.
    Fastest,
    /// The lowest objective within a budget: walking costs nothing, so it
    /// takes any cell that costs something, and a free cell it is faster in.
    LeastCost(Objective, Option<u32>),
}

/// Whether a rule admits a walk at all.
pub open spec fn admits(rule: WalkRule, seconds: u32) -> bool {
    match rule {
        WalkRule::Fastest => true,
        WalkRule::LeastCost(_, budget) => budget matches Some(cap) ==> seconds <= cap,
    }
}

pub open spec fn objective_key(objective: Objective, row: CostRow) -> u64 {
    match objective {
        Objective::Emissions => row.emission_grams,
        Objective::Fare => row.fare,
    }
}

/// Whether a walk takes a reached cell.
pub open spec fn walk_takes(rule: WalkRule, row: CostRow, seconds: u32) -> bool {
    admits(rule, seconds) && match rule {
        WalkRule::Fastest => seconds < row.seconds || (seconds == row.seconds && row.rides > 0),
        WalkRule::LeastCost(objective, _) => {
            let key = objective_key(objective, row);
            f64_less(ZERO, key) || (f64_equal(key, ZERO) && seconds < row.seconds)
        },
    }
}

/// A walking-only cell: nothing ridden, nothing emitted; free where fares
/// are priced at all.
pub open spec fn walking_row(to: u32, seconds: u32, meters: u64, priced: bool) -> CostRow {
    CostRow {
        to,
        seconds,
        rides: 0,
        transit_meters: ZERO,
        walk_meters: meters,
        emission_grams: ZERO,
        fare: if priced {
            ZERO
        } else {
            UNKNOWN
        },
        geometry: None,
    }
}

/// A reached cell after the walk was offered, and whether the walk took it.
pub open spec fn offered(
    rule: WalkRule,
    row: CostRow,
    walk: Option<(u32, u64)>,
    priced: bool,
) -> (CostRow, bool) {
    match walk {
        Some((seconds, meters)) => if walk_takes(rule, row, seconds) {
            (walking_row(row.to, seconds, meters, priced), true)
        } else {
            (row, false)
        },
        None => (row, false),
    }
}

/// The rows to one point, from position `from` on.
pub open spec fn rows_to(rows: Seq<CostRow>, point: int, from: int) -> Seq<CostRow>
    decreases rows.len() - from,
{
    if from >= rows.len() {
        Seq::empty()
    } else if rows[from].to == point {
        seq![rows[from]] + rows_to(rows, point, from + 1)
    } else {
        rows_to(rows, point, from + 1)
    }
}

/// The cells of one point: its rows with the walk offered to each, or the
/// walk alone where nothing else reached it.
pub open spec fn point_cells(
    rule: WalkRule,
    rows: Seq<CostRow>,
    walk: Seq<Option<(u32, u64)>>,
    priced: bool,
    point: int,
) -> Seq<(CostRow, bool)> {
    let own = rows_to(rows, point, 0);
    if own.len() > 0 {
        own.map_values(|row: CostRow| offered(rule, row, walk[point], priced))
    } else {
        match walk[point] {
            Some((seconds, meters)) => if admits(rule, seconds) {
                seq![(walking_row(point as u32, seconds, meters, priced), true)]
            } else {
                Seq::empty()
            },
            None => Seq::empty(),
        }
    }
}

/// The cells of every point, in order of the points.
pub open spec fn walked_cells(
    rule: WalkRule,
    rows: Seq<CostRow>,
    walk: Seq<Option<(u32, u64)>>,
    priced: bool,
    points: int,
) -> Seq<(CostRow, bool)> {
    stacked(Seq::new(points as nat, |point: int| point_cells(rule, rows, walk, priced, point)))
}

fn empty_cells(points: usize) -> (cells: Vec<Vec<CostRow>>)
    ensures
        cells@.len() == points,
        forall|p: int| 0 <= p < points ==> (#[trigger] cells@[p])@ == Seq::<CostRow>::empty(),
{
    let mut cells: Vec<Vec<CostRow>> = Vec::new();
    while cells.len() < points
        invariant
            cells@.len() <= points,
            forall|p: int|
                0 <= p < cells@.len() ==> (#[trigger] cells@[p])@ == Seq::<CostRow>::empty(),
        decreases points - cells.len(),
    {
        cells.push(Vec::new());
    }
    cells
}

/// Rows by point, each point's last row first.
fn by_point(rows: Vec<CostRow>, points: usize) -> (cells: Vec<Vec<CostRow>>)
    requires
        forall|r: int| 0 <= r < rows@.len() ==> (#[trigger] rows@[r]).to < points,
    ensures
        cells@.len() == points,
        forall|p: int|
            0 <= p < points ==> (#[trigger] cells@[p])@ == rows_to(rows@, p, 0).reverse(),
{
    let ghost all = rows@;
    let mut rows: Vec<CostRow> = rows;
    let mut cells = empty_cells(points);
    proof {
        assert forall|p: int| 0 <= p < points implies (#[trigger] cells@[p])@ == rows_to(
            all,
            p,
            all.len() as int,
        ).reverse() by {
            assert(rows_to(all, p, all.len() as int).reverse() =~= Seq::<CostRow>::empty());
        }
    }
    while rows.len() > 0
        invariant
            rows@.len() <= all.len(),
            rows@ == all.subrange(0, rows@.len() as int),
            cells@.len() == points,
            forall|r: int| 0 <= r < all.len() ==> (#[trigger] all[r]).to < points,
            forall|p: int|
                0 <= p < points ==> (#[trigger] cells@[p])@ == rows_to(
                    all,
                    p,
                    rows@.len() as int,
                ).reverse(),
        decreases rows.len(),
    {
        let ghost before = cells@;
        let ghost at = rows@.len() - 1;
        if let Some(row) = rows.pop() {
            assert(row == all[at]);
            let to: usize = row.to as usize;
            assert(rows@ =~= all.subrange(0, at));
            cells[to].push(row);
            proof {
                assert forall|p: int| 0 <= p < points implies (#[trigger] cells@[p])@ == rows_to(
                    all,
                    p,
                    at,
                ).reverse() by {
                    let later = rows_to(all, p, at + 1);
                    assert(before[p]@ == later.reverse());
                    if p == to {
                        assert((seq![all[at]] + later).reverse() =~= later.reverse().push(all[at]));
                    } else {
                        assert(cells@[p] == before[p]);
                    }
                }
            }
        }
    }
    cells
}

fn walk_wins(rule: WalkRule, row: &CostRow, seconds: u32) -> (wins: bool)
    ensures
        wins == walk_takes(rule, *row, seconds),
{
    match rule {
        WalkRule::Fastest => seconds < row.seconds || (seconds == row.seconds && row.rides > 0),
        WalkRule::LeastCost(objective, budget) => {
            let admitted: bool = match budget {
                Some(cap) => seconds <= cap,
                None => true,
            };
            let key: u64 = match objective {
                Objective::Emissions => row.emission_grams,
                Objective::Fare => row.fare,
            };
            admitted && (less(ZERO, key) || (equal(key, ZERO) && seconds < row.seconds))
        },
    }
}

fn walking(to: u32, seconds: u32, meters: u64, priced: bool) -> (row: CostRow)
    ensures
        row == walking_row(to, seconds, meters, priced),
{
    CostRow {
        to,
        seconds,
        rides: 0,
        transit_meters: ZERO,
        walk_meters: meters,
        emission_grams: ZERO,
        fare: if priced {
            ZERO
        } else {
            UNKNOWN
        },
        geometry: None,
    }
}

/// Folds the walking-only alternative into an origin's cost rows: rows come
/// back in order of their points, each beside whether walking took it. A
/// taken cell has no geometry yet; the walk's own path is its geometry.
pub fn with_walks(
    rule: WalkRule,
    rows: Vec<CostRow>,
    walk: &Vec<Option<(u32, u64)>>,
    priced: bool,
) -> (folded: (Vec<CostRow>, Vec<bool>))
    requires
        walk@.len() <= u32::MAX,
        forall|r: int| 0 <= r < rows@.len() ==> (#[trigger] rows@[r]).to < walk@.len(),
    ensures
        folded.0@.len() == folded.1@.len(),
        Seq::new(folded.0@.len(), |i: int| (folded.0@[i], folded.1@[i])) == walked_cells(
            rule,
            rows@,
            walk@,
            priced,
            walk@.len() as int,
        ),
{
    let ghost all = rows@;
    let points: usize = walk.len();
    let mut cells = by_point(rows, points);
    let mut out: Vec<CostRow> = Vec::new();
    let mut walked: Vec<bool> = Vec::new();
    let ghost lines = Seq::new(
        points as nat,
        |point: int| point_cells(rule, all, walk@, priced, point),
    );
    let mut point: usize = 0;
    assert(lines.subrange(0, 0) =~= Seq::empty());
    assert(pairs(out@, walked@) =~= stacked(lines.subrange(0, 0)));
    while point < points
        invariant
            point <= points == walk@.len(),
            points <= u32::MAX,
            cells@.len() == points,
            lines == Seq::new(
                points as nat,
                |point: int| point_cells(rule, all, walk@, priced, point),
            ),
            forall|p: int|
                point <= p < points ==> (#[trigger] cells@[p])@ == rows_to(all, p, 0).reverse(),
            out@.len() == walked@.len(),
            pairs(out@, walked@) == stacked(lines.subrange(0, point as int)),
        decreases points - point,
    {
        let ghost held = pairs(out@, walked@);
        let ghost own = rows_to(all, point as int, 0);
        let ghost line = lines[point as int];
        assert(cells@[point as int]@ == own.reverse());
        let cell: Option<(u32, u64)> = walk[point];
        let mut own_rows: Vec<CostRow> = Vec::new();
        core::mem::swap(&mut cells[point], &mut own_rows);
        if own_rows.len() == 0 {
            assert(own.len() == 0);
            if let Some((seconds, meters)) = cell {
                let admitted: bool = match rule {
                    WalkRule::Fastest => true,
                    WalkRule::LeastCost(_, budget) => match budget {
                        Some(cap) => seconds <= cap,
                        None => true,
                    },
                };
                if admitted {
                    out.push(walking(point as u32, seconds, meters, priced));
                    walked.push(true);
                    assert(pairs(out@, walked@) =~= held + line);
                } else {
                    assert(pairs(out@, walked@) =~= held + line);
                }
            } else {
                assert(pairs(out@, walked@) =~= held + line);
            }
        } else {
            let ghost mut taken: int = 0;
            assert(held + line.subrange(0, 0) =~= held);
            assert(own.subrange(0, own.len() as int) =~= own);
            while own_rows.len() > 0
                invariant
                    0 <= taken <= own.len(),
                    own_rows@ == own.subrange(taken, own.len() as int).reverse(),
                    line == own.map_values(|row: CostRow| offered(rule, row, cell, priced)),
                    out@.len() == walked@.len(),
                    pairs(out@, walked@) == held + line.subrange(0, taken),
                decreases own_rows.len(),
            {
                if let Some(row) = own_rows.pop() {
                    assert(row == own[taken]);
                    let mut takes: bool = false;
                    let mut kept: CostRow = row;
                    if let Some((seconds, meters)) = cell {
                        if walk_wins(rule, &kept, seconds) {
                            takes = true;
                            kept = walking(kept.to, seconds, meters, priced);
                        }
                    }
                    let ghost upto = pairs(out@, walked@);
                    let ghost next = (kept, takes);
                    assert(next == line[taken]);
                    out.push(kept);
                    walked.push(takes);
                    proof {
                        assert(pairs(out@, walked@) =~= upto.push(next));
                        assert(line.subrange(0, taken + 1) =~= line.subrange(0, taken).push(next));
                        taken = taken + 1;
                        assert(own_rows@ =~= own.subrange(taken, own.len() as int).reverse());
                        assert(pairs(out@, walked@) =~= held + line.subrange(0, taken));
                    }
                }
            }
            assert(line.subrange(0, taken) =~= line);
        }
        proof {
            lemma_stacked_push(lines.subrange(0, point as int), line);
            assert(lines.subrange(0, point as int).push(line) =~= lines.subrange(0, point + 1));
        }
        point += 1;
    }
    assert(lines.subrange(0, points as int) =~= lines);
    (out, walked)
}

/// On the fastest axis no cell comes out slower than it was or than walking.
pub proof fn law_fastest_cell_bounds(row: CostRow, walk: Option<(u32, u64)>, priced: bool)
    ensures
        ({
            let (kept, _) = offered(WalkRule::Fastest, row, walk, priced);
            &&& kept.to == row.to
            &&& kept.seconds <= row.seconds
            &&& walk matches Some((seconds, _)) ==> kept.seconds <= seconds
            &&& kept.seconds == row.seconds ==> kept.rides <= row.rides
        }),
{
}

proof fn lemma_rows_to(rows: Seq<CostRow>, point: int, from: int)
    requires
        0 <= from,
    ensures
        forall|i: int|
            0 <= i < rows_to(rows, point, from).len() ==> (#[trigger] rows_to(
                rows,
                point,
                from,
            )[i]).to == point,
    decreases rows.len() - from,
{
    if from < rows.len() {
        lemma_rows_to(rows, point, from + 1);
    }
}

/// Cells come out in order of their points.
pub proof fn law_cells_in_point_order(
    rule: WalkRule,
    rows: Seq<CostRow>,
    walk: Seq<Option<(u32, u64)>>,
    priced: bool,
    points: int,
)
    requires
        0 <= points <= walk.len() <= u32::MAX,
    ensures
        forall|i: int, j: int|
            0 <= i <= j < walked_cells(rule, rows, walk, priced, points).len() ==> (
            #[trigger] walked_cells(rule, rows, walk, priced, points)[i]).0.to <= (
            #[trigger] walked_cells(rule, rows, walk, priced, points)[j]).0.to,
        forall|i: int|
            0 <= i < walked_cells(rule, rows, walk, priced, points).len() ==> (
            #[trigger] walked_cells(rule, rows, walk, priced, points)[i]).0.to < points,
    decreases points,
{
    let lines = Seq::new(points as nat, |point: int| point_cells(rule, rows, walk, priced, point));
    if points > 0 {
        law_cells_in_point_order(rule, rows, walk, priced, points - 1);
        let fewer = Seq::new(
            (points - 1) as nat,
            |point: int| point_cells(rule, rows, walk, priced, point),
        );
        assert(lines.drop_last() =~= fewer);
        lemma_rows_to(rows, points - 1, 0);
        let last = point_cells(rule, rows, walk, priced, points - 1);
        assert forall|i: int| 0 <= i < last.len() implies (#[trigger] last[i]).0.to == points
            - 1 by {
            let own = rows_to(rows, points - 1, 0);
            if own.len() > 0 {
                assert(own[i].to == points - 1);
            }
        }
    }
}

/// Rows beside their flags.
pub open spec fn pairs(rows: Seq<CostRow>, flags: Seq<bool>) -> Seq<(CostRow, bool)> {
    Seq::new(rows.len(), |i: int| (rows[i], flags[i]))
}

/// Offers one direct walk to an origin's emission cells: the first cell of
/// its destination, if there is one, else a new cell.
pub open spec fn walk_merged(
    row: Seq<CostRow>,
    to: u32,
    seconds: u32,
    meters: u64,
    priced: bool,
) -> Seq<CostRow> {
    let at = first_to(row, to, 0);
    let cell = walking_row(to, seconds, meters, priced);
    if at < row.len() {
        if walk_takes(WalkRule::LeastCost(Objective::Emissions, None), row[at], seconds) {
            row.update(at, cell)
        } else {
            row
        }
    } else {
        row.push(cell)
    }
}

/// The position of the first row to a destination, or the length.
pub open spec fn first_to(row: Seq<CostRow>, to: u32, from: int) -> int
    decreases row.len() - from,
{
    if from >= row.len() || row[from].to == to {
        from
    } else {
        first_to(row, to, from + 1)
    }
}

/// The cells after the first `count` walks were offered.
pub open spec fn walks_merged(
    row: Seq<CostRow>,
    walks: Seq<(u32, u32, u64)>,
    destinations: Seq<u32>,
    budget: Option<u32>,
    priced: bool,
    count: int,
) -> Seq<CostRow>
    decreases count,
{
    if count <= 0 {
        row
    } else {
        let before = walks_merged(row, walks, destinations, budget, priced, count - 1);
        let (slot, seconds, meters) = walks[count - 1];
        if budget matches Some(cap) && seconds > cap {
            before
        } else {
            walk_merged(before, destinations[slot as int], seconds, meters, priced)
        }
    }
}

/// Overlays an origin's direct street walks onto its emission cells: a
/// walking-only journey takes a cell whenever nothing there is cleaner. A
/// walk beyond the budget is dropped.
pub fn merge_direct_walk_cells(
    row: &mut Vec<CostRow>,
    walks: &Vec<(u32, u32, u64)>,
    destinations: &Vec<u32>,
    budget: Option<u32>,
    priced: bool,
)
    requires
        forall|w: int| 0 <= w < walks@.len() ==> (#[trigger] walks@[w]).0 < destinations@.len(),
    ensures
        final(row)@ == walks_merged(
            old(row)@,
            walks@,
            destinations@,
            budget,
            priced,
            walks@.len() as int,
        ),
{
    let ghost start = row@;
    let mut index: usize = 0;
    while index < walks.len()
        invariant
            index <= walks@.len(),
            forall|w: int|
                0 <= w < walks@.len() ==> (#[trigger] walks@[w]).0 < destinations@.len(),
            row@ == walks_merged(start, walks@, destinations@, budget, priced, index as int),
        decreases walks.len() - index,
    {
        let (slot, seconds, meters): (u32, u32, u64) = walks[index];
        assert(walks@[index as int].0 < destinations@.len());
        let beyond: bool = match budget {
            Some(cap) => seconds > cap,
            None => false,
        };
        if !beyond {
            let to: u32 = destinations[slot as usize];
            let cell = walking(to, seconds, meters, priced);
            let mut at: usize = 0;
            while at < row.len() && row[at].to != to
                invariant
                    at <= row@.len(),
                    first_to(row@, to, 0) == first_to(row@, to, at as int),
                decreases row.len() - at,
            {
                at += 1;
            }
            if at < row.len() {
                if walk_wins(WalkRule::LeastCost(Objective::Emissions, None), &row[at], seconds) {
                    row.set(at, cell);
                }
            } else {
                row.push(cell);
            }
        }
        index += 1;
    }
}

/// The overlay keeps every cell, or replaces it by a walk that emits nothing:
/// a cell that emitted something, or a clean one by a faster walk.
pub proof fn law_walks_only_clean(
    row: Seq<CostRow>,
    walks: Seq<(u32, u32, u64)>,
    destinations: Seq<u32>,
    budget: Option<u32>,
    priced: bool,
    count: int,
    index: int,
)
    requires
        0 <= count <= walks.len(),
        0 <= index < row.len(),
    ensures
        ({
            let after = walks_merged(row, walks, destinations, budget, priced, count);
            &&& after.len() >= row.len()
            &&& after[index].to == row[index].to
            &&& after[index] == row[index] || (after[index].rides == 0
                && after[index].emission_grams == ZERO && (f64_less(
                ZERO,
                row[index].emission_grams,
            ) || (f64_equal(row[index].emission_grams, ZERO) && after[index].seconds
                < row[index].seconds)))
        }),
    decreases count,
{
    if count > 0 {
        law_walks_only_clean(row, walks, destinations, budget, priced, count - 1, index);
        let before = walks_merged(row, walks, destinations, budget, priced, count - 1);
        let to = destinations[walks[count - 1].0 as int];
        lemma_first_to(before, to, 0);
    }
}

proof fn lemma_first_to(row: Seq<CostRow>, to: u32, from: int)
    requires
        0 <= from <= row.len(),
    ensures
        from <= first_to(row, to, from) <= row.len(),
        first_to(row, to, from) < row.len() ==> row[first_to(row, to, from)].to == to,
    decreases row.len() - from,
{
    if from < row.len() && row[from].to != to {
        lemma_first_to(row, to, from + 1);
    }
}

/// The rows of several origins as equal-length columns.
pub struct CostColumns {
    pub from: Vec<u32>,
    pub to: Vec<u32>,
    pub travel_time: Vec<u32>,
    pub rides: Vec<u32>,
    pub transit_distance: Vec<u64>,
    pub walk_distance: Vec<u64>,
    pub emissions: Vec<u64>,
    pub fare: Vec<u64>,
    pub geometry: Option<Vec<Option<Vec<u8>>>>,
}

/// The rows of the first `count` origins, each with its origin.
pub open spec fn origin_rows(rows: Seq<Seq<CostRow>>, count: int) -> Seq<(u32, CostRow)>
    decreases count,
{
    if count <= 0 {
        Seq::empty()
    } else {
        origin_rows(rows, count - 1) + rows[count - 1].map_values(
            |row: CostRow| ((count - 1) as u32, row),
        )
    }
}

/// Whether columns hold rows in order.
pub open spec fn columns_hold(columns: CostColumns, rows: Seq<(u32, CostRow)>) -> bool {
    &&& columns.from@ == rows.map_values(|row: (u32, CostRow)| row.0)
    &&& columns.to@ == rows.map_values(|row: (u32, CostRow)| row.1.to)
    &&& columns.travel_time@ == rows.map_values(|row: (u32, CostRow)| row.1.seconds)
    &&& columns.rides@ == rows.map_values(|row: (u32, CostRow)| row.1.rides)
    &&& columns.transit_distance@ == rows.map_values(|row: (u32, CostRow)| row.1.transit_meters)
    &&& columns.walk_distance@ == rows.map_values(|row: (u32, CostRow)| row.1.walk_meters)
    &&& columns.emissions@ == rows.map_values(|row: (u32, CostRow)| row.1.emission_grams)
    &&& columns.fare@ == rows.map_values(|row: (u32, CostRow)| row.1.fare)
    &&& columns.geometry matches Some(shapes) ==> shapes@ == rows.map_values(
        |row: (u32, CostRow)| row.1.geometry,
    )
}

fn push_row(columns: &mut CostColumns, origin: u32, row: CostRow, Ghost(rows): Ghost<Seq<(u32, CostRow)>>)
    requires
        columns_hold(*old(columns), rows),
    ensures
        columns_hold(*final(columns), rows.push((origin, row))),
        (final(columns).geometry is Some) == (old(columns).geometry is Some),
{
    let ghost more = rows.push((origin, row));
    columns.from.push(origin);
    columns.to.push(row.to);
    columns.travel_time.push(row.seconds);
    columns.rides.push(row.rides);
    columns.transit_distance.push(row.transit_meters);
    columns.walk_distance.push(row.walk_meters);
    columns.emissions.push(row.emission_grams);
    columns.fare.push(row.fare);
    if let Some(shapes) = &mut columns.geometry {
        shapes.push(row.geometry);
    }
    proof {
        assert(columns.from@ =~= more.map_values(|row: (u32, CostRow)| row.0));
        assert(columns.to@ =~= more.map_values(|row: (u32, CostRow)| row.1.to));
        assert(columns.travel_time@ =~= more.map_values(|row: (u32, CostRow)| row.1.seconds));
        assert(columns.rides@ =~= more.map_values(|row: (u32, CostRow)| row.1.rides));
        assert(columns.transit_distance@ =~= more.map_values(
            |row: (u32, CostRow)| row.1.transit_meters,
        ));
        assert(columns.walk_distance@ =~= more.map_values(|row: (u32, CostRow)| row.1.walk_meters));
        assert(columns.emissions@ =~= more.map_values(|row: (u32, CostRow)| row.1.emission_grams));
        assert(columns.fare@ =~= more.map_values(|row: (u32, CostRow)| row.1.fare));
        if columns.geometry is Some {
            assert(columns.geometry->0@ =~= more.map_values(|row: (u32, CostRow)| row.1.geometry));
        }
    }
}

/// Flattens per-origin cost rows into equal-length columns, with a list of
/// geometries where they are asked for.
pub fn cost_rows_dict(rows: Vec<Vec<CostRow>>, geometries: bool) -> (columns: CostColumns)
    requires
        rows@.len() <= u32::MAX,
    ensures
        columns_hold(
            columns,
            origin_rows(row_views(rows@), rows@.len() as int),
        ),
        (columns.geometry is Some) == geometries,
{
    let ghost views = row_views(rows@);
    let mut rows: Vec<Vec<CostRow>> = rows;
    let mut columns = CostColumns {
        from: Vec::new(),
        to: Vec::new(),
        travel_time: Vec::new(),
        rides: Vec::new(),
        transit_distance: Vec::new(),
        walk_distance: Vec::new(),
        emissions: Vec::new(),
        fare: Vec::new(),
        geometry: if geometries {
            Some(Vec::new())
        } else {
            None
        },
    };
    let mut origin: usize = 0;
    proof {
        let none = Seq::<(u32, CostRow)>::empty();
        assert(columns.from@ =~= none.map_values(|row: (u32, CostRow)| row.0));
        assert(columns.to@ =~= none.map_values(|row: (u32, CostRow)| row.1.to));
        assert(columns.travel_time@ =~= none.map_values(|row: (u32, CostRow)| row.1.seconds));
        assert(columns.rides@ =~= none.map_values(|row: (u32, CostRow)| row.1.rides));
        assert(columns.transit_distance@ =~= none.map_values(
            |row: (u32, CostRow)| row.1.transit_meters,
        ));
        assert(columns.walk_distance@ =~= none.map_values(
            |row: (u32, CostRow)| row.1.walk_meters,
        ));
        assert(columns.emissions@ =~= none.map_values(
            |row: (u32, CostRow)| row.1.emission_grams,
        ));
        assert(columns.fare@ =~= none.map_values(|row: (u32, CostRow)| row.1.fare));
        if columns.geometry is Some {
            assert(columns.geometry->0@ =~= none.map_values(
                |row: (u32, CostRow)| row.1.geometry,
            ));
        }
    }
    while origin < rows.len()
        invariant
            origin <= rows@.len() == views.len(),
            rows@.len() <= u32::MAX,
            forall|o: int| origin <= o < views.len() ==> (#[trigger] rows@[o])@ == views[o],
            (columns.geometry is Some) == geometries,
            columns_hold(columns, origin_rows(views, origin as int)),
        decreases rows.len() - origin,
    {
        let ghost held = origin_rows(views, origin as int);
        let ghost own = views[origin as int];
        assert(rows@[origin as int]@ == own);
        let mut line: Vec<CostRow> = Vec::new();
        core::mem::swap(&mut rows[origin], &mut line);
        let mut rest = reversed(line);
        let ghost mut taken: int = 0;
        let ghost added = own.map_values(|row: CostRow| (origin as u32, row));
        assert(held + added.subrange(0, 0) =~= held);
        assert(own.subrange(0, own.len() as int) =~= own);
        while rest.len() > 0
            invariant
                0 <= taken <= own.len(),
                origin <= u32::MAX,
                rest@ == own.subrange(taken, own.len() as int).reverse(),
                added == own.map_values(|row: CostRow| (origin as u32, row)),
                (columns.geometry is Some) == geometries,
                columns_hold(columns, held + added.subrange(0, taken)),
            decreases rest.len(),
        {
            if let Some(row) = rest.pop() {
                assert(row == own[taken]);
                push_row(
                    &mut columns,
                    origin as u32,
                    row,
                    Ghost(held + added.subrange(0, taken)),
                );
                proof {
                    assert((held + added.subrange(0, taken)).push(added[taken]) =~= held
                        + added.subrange(0, taken + 1));
                    taken = taken + 1;
                    assert(rest@ =~= own.subrange(taken, own.len() as int).reverse());
                }
            }
        }
        proof {
            assert(added.subrange(0, taken) =~= added);
            assert(origin_rows(views, origin + 1) =~= held + added);
        }
        origin += 1;
    }
    columns
}

/// A list back to front.
fn reversed<T>(values: Vec<T>) -> (turned: Vec<T>)
    ensures
        turned@ == values@.reverse(),
{
    let ghost all = values@;
    let mut values: Vec<T> = values;
    let mut turned: Vec<T> = Vec::new();
    assert(all.subrange(0, all.len() as int) =~= all);
    while values.len() > 0
        invariant
            values@.len() + turned@.len() == all.len(),
            values@ == all.subrange(0, values@.len() as int),
            turned@ == all.subrange(values@.len() as int, all.len() as int).reverse(),
        decreases values.len(),
    {
        if let Some(value) = values.pop() {
            turned.push(value);
            assert(turned@ =~= all.subrange(values@.len() as int, all.len() as int).reverse());
            assert(values@ =~= all.subrange(0, values@.len() as int));
        }
    }
    assert(all.subrange(0, all.len() as int) =~= all);
    turned
}

/// Rows of a matrix over located destinations, keyed by the destinations'
/// own stops again.
pub open spec fn rekeyed(row: CostRow, destinations: Seq<u32>) -> CostRow {
    CostRow { to: destinations[row.to as int], ..row }
}

/// Maps each row's destination from its place in a list to its stop.
pub fn rekey_rows(rows: &mut Vec<CostRow>, destinations: &Vec<u32>)
    requires
        forall|r: int| 0 <= r < old(rows)@.len() ==> (#[trigger] old(rows)@[r]).to
            < destinations@.len(),
    ensures
        final(rows)@ == old(rows)@.map_values(|row: CostRow| rekeyed(row, destinations@)),
{
    let ghost start = rows@;
    let mut index: usize = 0;
    while index < rows.len()
        invariant
            index <= rows@.len() == start.len(),
            forall|r: int| 0 <= r < start.len() ==> (#[trigger] start[r]).to
                < destinations@.len(),
            forall|r: int| index <= r < start.len() ==> #[trigger] rows@[r] == start[r],
            forall|r: int|
                0 <= r < index ==> #[trigger] rows@[r] == rekeyed(start[r], destinations@),
        decreases rows.len() - index,
    {
        assert(start[index as int].to < destinations@.len());
        assert(rows@[index as int] == start[index as int]);
        let to: u32 = destinations[rows[index].to as usize];
        rows[index].to = to;
        index += 1;
    }
    assert(rows@ =~= start.map_values(|row: CostRow| rekeyed(row, destinations@)));
}

/// Per origin its door-to-door row where it was located, else its row over
/// the closure.
pub open spec fn located_rows<T>(door: Seq<T>, closure: Seq<T>, located: Seq<bool>) -> Seq<T> {
    Seq::new(
        door.len(),
        |i: int|
            if located[i] {
                door[i]
            } else {
                closure[i]
            },
    )
}

/// Chooses each origin's rows: those routed door to door where it could be
/// located, else those routed over the closure.
pub fn choose_located<T>(door: Vec<Vec<T>>, closure: Vec<Vec<T>>, located: &Vec<bool>) -> (rows: Vec<
    Vec<T>,
>)
    requires
        door@.len() == closure@.len() == located@.len(),
    ensures
        row_views(rows@) == located_rows(
            row_views(door@),
            row_views(closure@),
            located@,
        ),
{
    let ghost first = row_views(door@);
    let ghost second = row_views(closure@);
    let mut door: Vec<Vec<T>> = door;
    let mut closure: Vec<Vec<T>> = closure;
    let mut rows: Vec<Vec<T>> = Vec::new();
    let mut index: usize = 0;
    while index < located.len()
        invariant
            index <= located@.len() == door@.len() == closure@.len(),
            first.len() == second.len() == located@.len(),
            forall|i: int| index <= i < first.len() ==> (#[trigger] door@[i])@ == first[i],
            forall|i: int| index <= i < second.len() ==> (#[trigger] closure@[i])@ == second[i],
            rows@.len() == index,
            forall|i: int|
                0 <= i < index ==> (#[trigger] rows@[i])@ == located_rows(
                    first,
                    second,
                    located@,
                )[i],
        decreases located.len() - index,
    {
        let mut row: Vec<T> = Vec::new();
        if located[index] {
            assert(door@[index as int]@ == first[index as int]);
            core::mem::swap(&mut door[index], &mut row);
        } else {
            assert(closure@[index as int]@ == second[index as int]);
            core::mem::swap(&mut closure[index], &mut row);
        }
        rows.push(row);
        index += 1;
    }
    assert(row_views(rows@) =~= located_rows(first, second, located@));
    rows
}

/// What becomes of a cell that a walk is offered to. On the fastest axis the
/// walk takes it where it is faster, or as fast as something ridden. On the
/// least-cost axis it takes it, within the budget, where the fare (or the
/// grams, as asked) is above nothing, or is nothing and the walk is faster. A
/// taken cell rides nothing, emits nothing, and costs nothing where fares are
/// priced at all; any other cell stays as it is.
pub proof fn law_walks_take_cells(
    rule: WalkRule,
    row: CostRow,
    walk: Option<(u32, u64)>,
    priced: bool,
)
    ensures
        ({
            let (kept, taken) = offered(rule, row, walk, priced);
            &&& walk is None ==> !taken
            &&& !taken ==> kept == row
            &&& taken ==> {
                &&& kept.to == row.to
                &&& walk == Some((kept.seconds, kept.walk_meters))
                &&& kept.rides == 0
                &&& kept.transit_meters == 0
                &&& kept.emission_grams == 0
                &&& priced ==> kept.fare == 0
                &&& !priced ==> f64_is_nan(kept.fare)
                &&& kept.geometry is None
            }
            &&& walk matches Some((seconds, _)) ==> match rule {
                WalkRule::Fastest => taken == (seconds < row.seconds || (seconds == row.seconds
                    && row.rides > 0)),
                WalkRule::LeastCost(Objective::Fare, budget) => taken == ((budget matches Some(
                    cap,
                ) ==> seconds <= cap) && !f64_is_nan(row.fare) && (f64_rank(row.fare) > 0
                    || f64_rank(row.fare) == 0 && seconds < row.seconds)),
                WalkRule::LeastCost(Objective::Emissions, budget) => taken == ((
                budget matches Some(cap) ==> seconds <= cap) && !f64_is_nan(row.emission_grams)
                    && (f64_rank(row.emission_grams) > 0 || f64_rank(row.emission_grams) == 0
                    && seconds < row.seconds)),
            }
        }),
{
}

/// The rows to a point are those rows of the list that lead to it, in its
/// order.
pub proof fn law_rows_to_a_point(rows: Seq<CostRow>, point: int)
    ensures
        rows_to(rows, point, 0) == rows.filter(|row: CostRow| row.to == point),
{
    lemma_rows_filtered(rows, point, 0);
    assert(rows.subrange(0, rows.len() as int) =~= rows);
}

proof fn lemma_rows_filtered(rows: Seq<CostRow>, point: int, from: int)
    requires
        0 <= from <= rows.len(),
    ensures
        rows_to(rows, point, from) == rows.subrange(from, rows.len() as int).filter(
            |row: CostRow| row.to == point,
        ),
    decreases rows.len() - from,
{
    let leads = |row: CostRow| row.to == point;
    let rest = rows.subrange(from, rows.len() as int);
    if from < rows.len() {
        lemma_rows_filtered(rows, point, from + 1);
        let later = rows.subrange(from + 1, rows.len() as int);
        assert(rest =~= seq![rows[from]] + later);
        Seq::filter_distributes_over_add(seq![rows[from]], later, leads);
        assert(seq![rows[from]].filter(leads) == if leads(rows[from]) {
            seq![rows[from]]
        } else {
            Seq::empty()
        }) by {
            reveal_with_fuel(Seq::filter, 2);
            assert(seq![rows[from]].drop_last() =~= Seq::empty());
            assert(seq![rows[from]].last() == rows[from]);
            assert(Seq::<CostRow>::empty().push(rows[from]) =~= seq![rows[from]]);
        }
        if !leads(rows[from]) {
            assert(Seq::<CostRow>::empty() + later.filter(leads) =~= later.filter(leads));
        }
    } else {
        reveal(Seq::filter);
        assert(rest =~= Seq::empty());
    }
}

/// Every row comes out with its own point's walk offered to it, and nothing
/// else comes out but a walk alone to a point that no row leads to, where the
/// rule admits it.
pub proof fn law_cells_are_rows_and_walks(
    rule: WalkRule,
    rows: Seq<CostRow>,
    walk: Seq<Option<(u32, u64)>>,
    priced: bool,
    points: int,
)
    requires
        0 <= points <= walk.len() <= u32::MAX,
    ensures
        ({
            let cells = walked_cells(rule, rows, walk, priced, points);
            &&& forall|r: int|
                0 <= r < rows.len() && (#[trigger] rows[r]).to < points ==> cells.contains(
                    offered(rule, rows[r], walk[rows[r].to as int], priced),
                )
            &&& forall|point: int|
                0 <= point < points && (forall|r: int|
                    0 <= r < rows.len() ==> (#[trigger] rows[r]).to != point)
                    && #[trigger] walk[point] is Some && (rule matches WalkRule::LeastCost(
                    _,
                    Some(cap),
                ) ==> (walk[point]->0).0 <= cap) ==> cells.contains(
                    (
                        walking_row(
                            point as u32,
                            (walk[point]->0).0,
                            (walk[point]->0).1,
                            priced,
                        ),
                        true,
                    ),
                )
            &&& forall|i: int|
                0 <= i < cells.len() ==> from_row_or_walk(
                    rule,
                    rows,
                    walk,
                    priced,
                    #[trigger] cells[i],
                )
        }),
{
    let lines = Seq::new(points as nat, |point: int| point_cells(rule, rows, walk, priced, point));
    let cells = walked_cells(rule, rows, walk, priced, points);
    law_stacked_holds_the_rows(lines);
    assert forall|r: int|
        0 <= r < rows.len() && (#[trigger] rows[r]).to < points implies cells.contains(
        offered(rule, rows[r], walk[rows[r].to as int], priced),
    ) by {
        let point = rows[r].to as int;
        let leads = |row: CostRow| row.to == point;
        law_rows_to_a_point(rows, point);
        rows.lemma_filter_contains(leads, r);
        let own = rows_to(rows, point, 0);
        assert(leads(rows[r]));
        assert(own.contains(rows[r]));
        let k = choose|k: int| 0 <= k < own.len() && own[k] == rows[r];
        assert(lines[point][k] == offered(rule, rows[r], walk[point], priced));
    }
    assert forall|point: int|
        0 <= point < points && (forall|r: int|
            0 <= r < rows.len() ==> (#[trigger] rows[r]).to != point)
            && #[trigger] walk[point] is Some && (rule matches WalkRule::LeastCost(_, Some(cap))
            ==> (walk[point]->0).0 <= cap) implies cells.contains(
        (walking_row(point as u32, (walk[point]->0).0, (walk[point]->0).1, priced), true),
    ) by {
        lemma_no_rows_to(rows, point, 0);
        let lone = (
            walking_row(point as u32, (walk[point]->0).0, (walk[point]->0).1, priced),
            true,
        );
        assert(lines[point][0] == lone);
    }
    assert forall|i: int| 0 <= i < cells.len() implies from_row_or_walk(
        rule,
        rows,
        walk,
        priced,
        #[trigger] cells[i],
    ) by {
        let (point, k) = choose|point: int, k: int|
            0 <= point < lines.len() && 0 <= k < lines[point].len() && #[trigger] lines[point][k]
                == cells[i];
        let own = rows_to(rows, point, 0);
        let leads = |row: CostRow| row.to == point;
        law_rows_to_a_point(rows, point);
        lemma_own_rows(rows, point, 0);
        if own.len() > 0 {
            assert(rows.contains(own[k]) && own[k].to == point);
            let r = choose|r: int| 0 <= r < rows.len() && rows[r] == own[k];
            assert(cells[i] == offered(rule, rows[r], walk[point], priced));
        } else {
            assert(walk[point] is Some);
            assert forall|r: int| 0 <= r < rows.len() implies (#[trigger] rows[r]).to != point by {
                if rows[r].to == point {
                    assert(leads(rows[r]));
                    rows.lemma_filter_contains(leads, r);
                    assert(rows.filter(leads).contains(rows[r]));
                }
            }
        }
    }
}

proof fn lemma_own_rows(rows: Seq<CostRow>, point: int, from: int)
    requires
        0 <= from <= rows.len(),
    ensures
        forall|k: int|
            0 <= k < rows_to(rows, point, from).len() ==> rows.contains(
                #[trigger] rows_to(rows, point, from)[k],
            ) && rows_to(rows, point, from)[k].to == point,
    decreases rows.len() - from,
{
    if from < rows.len() {
        lemma_own_rows(rows, point, from + 1);
        let own = rows_to(rows, point, from);
        let later = rows_to(rows, point, from + 1);
        assert forall|k: int| 0 <= k < own.len() implies rows.contains(#[trigger] own[k])
            && own[k].to == point by {
            if rows[from].to == point {
                if k == 0 {
                    assert(rows[from] == own[0]);
                } else {
                    assert(own[k] == later[k - 1]);
                }
            }
        }
    }
}

proof fn lemma_no_rows_to(rows: Seq<CostRow>, point: int, from: int)
    requires
        0 <= from <= rows.len(),
        forall|r: int| 0 <= r < rows.len() ==> (#[trigger] rows[r]).to != point,
    ensures
        rows_to(rows, point, from).len() == 0,
    decreases rows.len() - from,
{
    if from < rows.len() {
        assert(rows[from].to != point);
        lemma_no_rows_to(rows, point, from + 1);
    }
}

/// Whether a cell is a row with its point's walk offered to it, or a walk
/// alone to a point that no row leads to.
pub open spec fn from_row_or_walk(
    rule: WalkRule,
    rows: Seq<CostRow>,
    walk: Seq<Option<(u32, u64)>>,
    priced: bool,
    cell: (CostRow, bool),
) -> bool {
    ||| exists|r: int|
        0 <= r < rows.len() && cell == offered(
            rule,
            #[trigger] rows[r],
            walk[rows[r].to as int],
            priced,
        )
    ||| exists|point: int|
        0 <= point < walk.len() && #[trigger] walk[point] is Some && (forall|r: int|
            0 <= r < rows.len() ==> (#[trigger] rows[r]).to != point) && (
        rule matches WalkRule::LeastCost(_, Some(cap)) ==> (walk[point]->0).0 <= cap) && cell == (
            walking_row(point as u32, (walk[point]->0).0, (walk[point]->0).1, priced),
            true,
        )
}

/// Wherever a walk stays within the budget, no cell to its point comes out of
/// the least-fare fold with a fare above nothing, nor out of the
/// least-emissions fold with grams above nothing.
pub proof fn law_admitted_walks_leave_nothing_to_pay(
    rows: Seq<CostRow>,
    walk: Seq<Option<(u32, u64)>>,
    budget: Option<u32>,
    priced: bool,
    points: int,
)
    requires
        0 <= points <= walk.len() <= u32::MAX,
    ensures
        forall|i: int|
            0 <= i < walked_cells(
                WalkRule::LeastCost(Objective::Fare, budget),
                rows,
                walk,
                priced,
                points,
            ).len() ==> paid_only_where_no_walk(
                (#[trigger] walked_cells(
                    WalkRule::LeastCost(Objective::Fare, budget),
                    rows,
                    walk,
                    priced,
                    points,
                )[i]).0.fare,
                walked_cells(
                    WalkRule::LeastCost(Objective::Fare, budget),
                    rows,
                    walk,
                    priced,
                    points,
                )[i].0.to,
                walk,
                budget,
            ),
        forall|i: int|
            0 <= i < walked_cells(
                WalkRule::LeastCost(Objective::Emissions, budget),
                rows,
                walk,
                priced,
                points,
            ).len() ==> paid_only_where_no_walk(
                (#[trigger] walked_cells(
                    WalkRule::LeastCost(Objective::Emissions, budget),
                    rows,
                    walk,
                    priced,
                    points,
                )[i]).0.emission_grams,
                walked_cells(
                    WalkRule::LeastCost(Objective::Emissions, budget),
                    rows,
                    walk,
                    priced,
                    points,
                )[i].0.to,
                walk,
                budget,
            ),
{
    let fare = WalkRule::LeastCost(Objective::Fare, budget);
    let grams = WalkRule::LeastCost(Objective::Emissions, budget);
    law_cells_are_rows_and_walks(fare, rows, walk, priced, points);
    law_cells_are_rows_and_walks(grams, rows, walk, priced, points);
    let fare_cells = walked_cells(fare, rows, walk, priced, points);
    let gram_cells = walked_cells(grams, rows, walk, priced, points);
    assert forall|i: int| 0 <= i < fare_cells.len() implies paid_only_where_no_walk(
        (#[trigger] fare_cells[i]).0.fare,
        fare_cells[i].0.to,
        walk,
        budget,
    ) by {
        lemma_paid_only_where_no_walk(fare, rows, walk, budget, priced, fare_cells[i]);
    }
    assert forall|i: int| 0 <= i < gram_cells.len() implies paid_only_where_no_walk(
        (#[trigger] gram_cells[i]).0.emission_grams,
        gram_cells[i].0.to,
        walk,
        budget,
    ) by {
        lemma_paid_only_where_no_walk(grams, rows, walk, budget, priced, gram_cells[i]);
    }
}

/// Whether an amount is above nothing only where no walk to the point stays
/// within the budget.
pub open spec fn paid_only_where_no_walk(
    amount: u64,
    to: u32,
    walk: Seq<Option<(u32, u64)>>,
    budget: Option<u32>,
) -> bool {
    walk[to as int] is Some && (budget matches Some(cap) ==> (walk[to as int]->0).0 <= cap)
        ==> f64_is_nan(amount) || f64_rank(amount) <= 0
}

proof fn lemma_paid_only_where_no_walk(
    rule: WalkRule,
    rows: Seq<CostRow>,
    walk: Seq<Option<(u32, u64)>>,
    budget: Option<u32>,
    priced: bool,
    cell: (CostRow, bool),
)
    requires
        walk.len() <= u32::MAX,
        from_row_or_walk(rule, rows, walk, priced, cell),
        rule == WalkRule::LeastCost(Objective::Fare, budget) || rule == WalkRule::LeastCost(
            Objective::Emissions,
            budget,
        ),
    ensures
        rule == WalkRule::LeastCost(Objective::Fare, budget) ==> paid_only_where_no_walk(
            cell.0.fare,
            cell.0.to,
            walk,
            budget,
        ),
        rule == WalkRule::LeastCost(Objective::Emissions, budget) ==> paid_only_where_no_walk(
            cell.0.emission_grams,
            cell.0.to,
            walk,
            budget,
        ),
{
    if exists|r: int|
        0 <= r < rows.len() && cell == offered(
            rule,
            #[trigger] rows[r],
            walk[rows[r].to as int],
            priced,
        ) {
        let r = choose|r: int|
            0 <= r < rows.len() && cell == offered(
                rule,
                #[trigger] rows[r],
                walk[rows[r].to as int],
                priced,
            );
        law_walks_take_cells(rule, rows[r], walk[rows[r].to as int], priced);
    }
}

/// After the direct walks were laid over emission cells, every destination
/// that a walk within the budget leads to has a cell, and its first one emits
/// nothing, or an amount that is not known.
pub proof fn law_walked_destinations_are_clean(
    row: Seq<CostRow>,
    walks: Seq<(u32, u32, u64)>,
    destinations: Seq<u32>,
    budget: Option<u32>,
    priced: bool,
    count: int,
    which: int,
)
    requires
        0 <= which < count <= walks.len(),
        budget matches Some(cap) ==> walks[which].1 <= cap,
    ensures
        ({
            let after = walks_merged(row, walks, destinations, budget, priced, count);
            let to = destinations[walks[which].0 as int];
            exists|i: int|
                0 <= i < after.len() && (#[trigger] after[i]).to == to && (f64_is_nan(
                    after[i].emission_grams,
                ) || f64_rank(after[i].emission_grams) <= 0) && (forall|j: int|
                    0 <= j < i ==> (#[trigger] after[j]).to != to)
        }),
    decreases count,
{
    let before = walks_merged(row, walks, destinations, budget, priced, count - 1);
    let after = walks_merged(row, walks, destinations, budget, priced, count);
    let to = destinations[walks[which].0 as int];
    let (slot, seconds, meters) = walks[count - 1];
    let last = destinations[slot as int];
    lemma_first_of(before, last, 0);
    if which == count - 1 {
        let at = first_to(before, last, 0);
        if at < before.len() {
            law_walks_take_cells(
                WalkRule::LeastCost(Objective::Emissions, None),
                before[at],
                Some((seconds, meters)),
                priced,
            );
        }
        assert(after[at].to == to);
        assert forall|j: int| 0 <= j < at implies (#[trigger] after[j]).to != to by {
            assert(before[j].to != to);
        }
    } else {
        law_walked_destinations_are_clean(
            row,
            walks,
            destinations,
            budget,
            priced,
            count - 1,
            which,
        );
        let i = choose|i: int|
            0 <= i < before.len() && (#[trigger] before[i]).to == to && (f64_is_nan(
                before[i].emission_grams,
            ) || f64_rank(before[i].emission_grams) <= 0) && (forall|j: int|
                0 <= j < i ==> (#[trigger] before[j]).to != to);
        assert(after[i].to == to);
        assert forall|j: int| 0 <= j < i implies (#[trigger] after[j]).to != to by {
            assert(before[j].to != to);
        }
    }
}

proof fn lemma_first_of(row: Seq<CostRow>, to: u32, from: int)
    requires
        0 <= from <= row.len(),
    ensures
        from <= first_to(row, to, from) <= row.len(),
        first_to(row, to, from) < row.len() ==> row[first_to(row, to, from)].to == to,
        forall|j: int| from <= j < first_to(row, to, from) ==> (#[trigger] row[j]).to != to,
    decreases row.len() - from,
{
    if from < row.len() && row[from].to != to {
        lemma_first_of(row, to, from + 1);
    }
}

/// The columns of a matrix hold each row's values in the row's place.
pub proof fn law_columns_keep_rows(columns: CostColumns, rows: Seq<(u32, CostRow)>, at: int)
    requires
        columns_hold(columns, rows),
        0 <= at < rows.len(),
    ensures
        columns.from@.len() == rows.len(),
        columns.from@[at] == rows[at].0,
        columns.to@[at] == rows[at].1.to,
        columns.travel_time@[at] == rows[at].1.seconds,
        columns.rides@[at] == rows[at].1.rides,
        columns.transit_distance@[at] == rows[at].1.transit_meters,
        columns.walk_distance@[at] == rows[at].1.walk_meters,
        columns.emissions@[at] == rows[at].1.emission_grams,
        columns.fare@[at] == rows[at].1.fare,
        columns.geometry matches Some(shapes) ==> shapes@[at] == rows[at].1.geometry,
{
}

/// The rows of several origins stand one origin after the other, each beside
/// its own origin: those of a further origin follow all the ones before.
pub proof fn law_origins_follow_one_another(rows: Seq<Seq<CostRow>>, count: int, origin: int, at: int)
    requires
        0 <= origin < count <= rows.len() <= u32::MAX,
        0 <= at < rows[origin].len(),
    ensures
        ({
            let place = stacked(rows.subrange(0, origin)).len() + at;
            &&& origin_rows(rows, count).len() == stacked(rows.subrange(0, count)).len()
            &&& 0 <= place < origin_rows(rows, count).len()
            &&& origin_rows(rows, count)[place] == (origin as u32, rows[origin][at])
        }),
    decreases count,
{
    lemma_origin_lengths(rows, count);
    lemma_origin_lengths(rows, count - 1);
    lemma_origin_lengths(rows, origin);
    if origin < count - 1 {
        law_origins_follow_one_another(rows, count - 1, origin, at);
    }
}

proof fn lemma_origin_lengths(rows: Seq<Seq<CostRow>>, count: int)
    requires
        0 <= count <= rows.len(),
    ensures
        origin_rows(rows, count).len() == stacked(rows.subrange(0, count)).len(),
    decreases count,
{
    if count > 0 {
        lemma_origin_lengths(rows, count - 1);
        assert(rows.subrange(0, count).drop_last() =~= rows.subrange(0, count - 1));
    }
}

/// Keying a row by its destination's stop changes nothing else of it.
pub proof fn law_rekeying_changes_the_key_only(row: CostRow, destinations: Seq<u32>)
    ensures
        rekeyed(row, destinations).to == destinations[row.to as int],
        rekeyed(row, destinations).seconds == row.seconds,
        rekeyed(row, destinations).rides == row.rides,
        rekeyed(row, destinations).transit_meters == row.transit_meters,
        rekeyed(row, destinations).walk_meters == row.walk_meters,
        rekeyed(row, destinations).emission_grams == row.emission_grams,
        rekeyed(row, destinations).fare == row.fare,
        rekeyed(row, destinations).geometry == row.geometry,
{
}

/// Located origins keep the rows routed door to door, and the others those
/// over the closure, each in its own place.
pub proof fn law_located_origins_go_door_to_door<T>(
    door: Seq<T>,
    closure: Seq<T>,
    located: Seq<bool>,
    origin: int,
)
    requires
        0 <= origin < door.len(),
    ensures
        located_rows(door, closure, located).len() == door.len(),
        located[origin] ==> located_rows(door, closure, located)[origin] == door[origin],
        !located[origin] ==> located_rows(door, closure, located)[origin] == closure[origin],
{
}

/// An objective is known by its own name alone, and the fare one needs fares.
pub proof fn law_objectives_are_named(objective: Seq<char>, fares: bool)
    ensures
        objective_outcome(objective, fares) == Ok::<Objective, Seq<char>>(Objective::Emissions)
            <==> objective == "emissions"@,
        objective_outcome(objective, fares) == Ok::<Objective, Seq<char>>(Objective::Fare)
            <==> objective == "fare"@ && fares,
        objective_outcome(objective, fares) is Ok ==> objective == "emissions"@ || objective
            == "fare"@,
{
    reveal_strlit("emissions");
    reveal_strlit("fare");
    assert("emissions"@.len() == 9);
    assert("fare"@.len() == 4);
}

} // verus!
