//! Street matrices of one mode: costs in long format, times row-major.

use crate::bytes::{equal, f64_equal, f64_is_cost, f64_is_nan, is_cost};
use crate::reduction::Snap;
use crate::rows::{law_stacked_cell, lemma_stacked_push, stacked};
use crate::text::{joined, joined_text, ValueError};
use crate::time_rows::UNREACHABLE;
use vstd::prelude::*;

verus! {

/// A routed cell: seconds, meters along the network and along the
/// connectors (doubles' bits). A cell from a coordinate to itself is a
/// point: its shape is that coordinate twice.
#[derive(Debug, Clone, Copy, PartialEq, Eq, Structural)]
pub struct StreetCost {
    pub seconds: u32,
    pub network_meters: u64,
    pub connector_meters: u64,
    pub point: bool,
}

/// No distance and no time.
pub open spec fn point_cost() -> StreetCost {
    StreetCost { seconds: 0, network_meters: 0, connector_meters: 0, point: true }
}

pub open spec fn same_place(left: (u64, u64), right: (u64, u64)) -> bool {
    f64_equal(left.0, right.0) && f64_equal(left.1, right.1)
}

/// A row with every snapped destination at the origin's own coordinate a
/// point. That is still a route the cutoff has to admit.
pub open spec fn with_points(
    row: Seq<Option<StreetCost>>,
    origin: (u64, u64),
    destinations: Seq<(u64, u64)>,
    snapped: Seq<bool>,
    max_seconds: u64,
) -> Seq<Option<StreetCost>> {
    Seq::new(
        row.len(),
        |i: int|
            if f64_is_cost(max_seconds) && same_place(destinations[i], origin) && snapped[i] {
                Some(point_cost())
            } else {
                row[i]
            },
    )
}

/// The finished row of an origin: nothing where it lies off the streets, and
/// points where a destination shares its coordinate.
pub open spec fn finished_row(
    row: Seq<Option<StreetCost>>,
    origin_snapped: bool,
    origin: (u64, u64),
    destinations: Seq<(u64, u64)>,
    snapped: Seq<bool>,
    max_seconds: u64,
) -> Seq<Option<StreetCost>> {
    if origin_snapped {
        with_points(row, origin, destinations, snapped, max_seconds)
    } else {
        Seq::new(row.len(), |i: int| None)
    }
}

/// Finishes an origin's row of costs.
pub fn cost_row(
    row: &mut Vec<Option<StreetCost>>,
    origin_snapped: bool,
    origin: (u64, u64),
    destinations: &Vec<(u64, u64)>,
    snapped: &Vec<bool>,
    max_seconds: u64,
)
    requires
        old(row)@.len() == destinations@.len() == snapped@.len(),
    ensures
        final(row)@ == finished_row(
            old(row)@,
            origin_snapped,
            origin,
            destinations@,
            snapped@,
            max_seconds,
        ),
{
    let ghost start = row@;
    let ghost finished = finished_row(
        start,
        origin_snapped,
        origin,
        destinations@,
        snapped@,
        max_seconds,
    );
    let routable: bool = is_cost(max_seconds);
    let mut index: usize = 0;
    while index < row.len()
        invariant
            index <= row@.len() == start.len(),
            start.len() == destinations@.len() == snapped@.len(),
            routable == f64_is_cost(max_seconds),
            finished == finished_row(
                start,
                origin_snapped,
                origin,
                destinations@,
                snapped@,
                max_seconds,
            ),
            forall|i: int| index <= i < start.len() ==> #[trigger] row@[i] == start[i],
            forall|i: int| 0 <= i < index ==> #[trigger] row@[i] == finished[i],
        decreases row.len() - index,
    {
        let place: (u64, u64) = destinations[index];
        if !origin_snapped {
            row.set(index, None);
        } else if routable && equal(place.0, origin.0) && equal(place.1, origin.1)
            && snapped[index] {
            row.set(
                index,
                Some(
                    StreetCost {
                        seconds: 0,
                        network_meters: 0,
                        connector_meters: 0,
                        point: true,
                    },
                ),
            );
        }
        index += 1;
    }
    assert(row@ =~= finished);
}

/// A metered cell as a cost: it settles only against a snapped destination.
pub open spec fn metered_cost(cell: Option<(u32, u64)>, connectors: Option<u64>) -> Option<
    StreetCost,
> {
    match (cell, connectors) {
        (Some((seconds, network_meters)), Some(connector_meters)) => Some(
            StreetCost { seconds, network_meters, connector_meters, point: false },
        ),
        _ => None,
    }
}

/// The costs of a row searched for seconds and network meters alone;
/// `connectors` are the connectors' meters at both ends, by destination.
pub fn metered_costs(cells: &Vec<Option<(u32, u64)>>, connectors: &Vec<Option<u64>>) -> (row: Vec<
    Option<StreetCost>,
>)
    requires
        cells@.len() == connectors@.len(),
    ensures
        row@ == Seq::new(cells@.len(), |i: int| metered_cost(cells@[i], connectors@[i])),
{
    let mut row: Vec<Option<StreetCost>> = Vec::new();
    let mut index: usize = 0;
    while index < cells.len()
        invariant
            index <= cells@.len() == connectors@.len(),
            row@.len() == index,
            forall|i: int|
                0 <= i < index ==> #[trigger] row@[i] == metered_cost(cells@[i], connectors@[i]),
        decreases cells.len() - index,
    {
        row.push(
            match (cells[index], connectors[index]) {
                (Some((seconds, network_meters)), Some(connector_meters)) => Some(
                    StreetCost { seconds, network_meters, connector_meters, point: false },
                ),
                _ => None,
            },
        );
        index += 1;
    }
    assert(row@ =~= Seq::new(cells@.len(), |i: int| metered_cost(cells@[i], connectors@[i])));
    row
}

/// A coordinate routes to itself in no time, where the cutoff admits
/// anything; any other pair is routed.
pub fn same_place_time(origin: (u64, u64), destination: (u64, u64), max_seconds: u64) -> (time: Option<
    Option<u32>,
>)
    ensures
        time == if same_place(origin, destination) {
            Some(own_time(max_seconds))
        } else {
            None
        },
{
    if equal(origin.0, destination.0) && equal(origin.1, destination.1) {
        if is_cost(max_seconds) {
            Some(Some(0))
        } else {
            Some(None)
        }
    } else {
        None
    }
}

/// The time of a coordinate to itself.
pub open spec fn own_time(max_seconds: u64) -> Option<u32> {
    if f64_is_cost(max_seconds) {
        Some(0)
    } else {
        None
    }
}

/// A coordinate on the streets is as far from itself in a cost row as on the
/// single route, wherever the search found nothing farther.
pub proof fn law_own_cell_is_own_time(
    row: Seq<Option<StreetCost>>,
    origin: (u64, u64),
    destinations: Seq<(u64, u64)>,
    snapped: Seq<bool>,
    max_seconds: u64,
    at: int,
)
    requires
        0 <= at < row.len() == destinations.len() == snapped.len(),
        same_place(destinations[at], origin),
        snapped[at],
        !f64_is_cost(max_seconds) ==> row[at] is None,
    ensures
        match finished_row(row, true, origin, destinations, snapped, max_seconds)[at] {
            Some(cell) => own_time(max_seconds) == Some(cell.seconds) && cell == point_cost(),
            None => own_time(max_seconds) is None,
        },
{
}

/// The routed cells of one origin among the first `count`.
pub open spec fn routed_upto(from: u32, row: Seq<Option<StreetCost>>, count: int) -> Seq<
    (u32, u32, StreetCost),
>
    decreases count,
{
    if count <= 0 {
        Seq::empty()
    } else {
        match row[count - 1] {
            Some(cell) => routed_upto(from, row, count - 1).push((from, (count - 1) as u32, cell)),
            None => routed_upto(from, row, count - 1),
        }
    }
}

/// The routed cells of the first `count` origins.
pub open spec fn routed_rows(rows: Seq<Vec<Option<StreetCost>>>, count: int) -> Seq<
    (u32, u32, StreetCost),
>
    decreases count,
{
    if count <= 0 {
        Seq::empty()
    } else {
        routed_rows(rows, count - 1) + routed_upto(
            (count - 1) as u32,
            rows[count - 1]@,
            rows[count - 1]@.len() as int,
        )
    }
}

/// A cost matrix in long format: origin, destination and cost of every
/// routed pair, in order.
pub fn cost_matrix(rows: &Vec<Vec<Option<StreetCost>>>) -> (cells: Vec<(u32, u32, StreetCost)>)
    requires
        rows@.len() <= u32::MAX,
        forall|r: int| 0 <= r < rows@.len() ==> (#[trigger] rows@[r])@.len() <= u32::MAX,
    ensures
        cells@ == routed_rows(rows@, rows@.len() as int),
{
    let mut cells: Vec<(u32, u32, StreetCost)> = Vec::new();
    let mut origin: usize = 0;
    while origin < rows.len()
        invariant
            origin <= rows@.len() <= u32::MAX,
            forall|r: int| 0 <= r < rows@.len() ==> (#[trigger] rows@[r])@.len() <= u32::MAX,
            cells@ == routed_rows(rows@, origin as int),
        decreases rows.len() - origin,
    {
        let row = &rows[origin];
        assert(rows@[origin as int]@.len() <= u32::MAX);
        let ghost held = cells@;
        let mut index: usize = 0;
        assert(held + routed_upto(origin as u32, row@, 0) =~= held);
        while index < row.len()
            invariant
                index <= row@.len() <= u32::MAX,
                origin <= u32::MAX,
                cells@ == held + routed_upto(origin as u32, row@, index as int),
            decreases row.len() - index,
        {
            if let Some(cell) = row[index] {
                cells.push((origin as u32, index as u32, cell));
                assert(cells@ =~= held + routed_upto(origin as u32, row@, index + 1));
            }
            index += 1;
        }
        origin += 1;
    }
    cells
}

/// A row of times, unreached cells at the maximum.
pub open spec fn filled(row: Seq<Option<u32>>) -> Seq<u32> {
    row.map_values(
        |cell: Option<u32>|
            match cell {
                Some(seconds) => seconds,
                None => UNREACHABLE,
            },
    )
}

/// A time matrix row-major, unreached cells at the maximum.
pub fn street_time_matrix(rows: &Vec<Vec<Option<u32>>>) -> (flat: Vec<u32>)
    ensures
        flat@ == stacked(rows@.map_values(|row: Vec<Option<u32>>| filled(row@))),
{
    let ghost all = rows@.map_values(|row: Vec<Option<u32>>| filled(row@));
    let mut flat: Vec<u32> = Vec::new();
    let mut origin: usize = 0;
    assert(all.subrange(0, 0) =~= Seq::empty());
    while origin < rows.len()
        invariant
            origin <= rows@.len(),
            all == rows@.map_values(|row: Vec<Option<u32>>| filled(row@)),
            flat@ == stacked(all.subrange(0, origin as int)),
        decreases rows.len() - origin,
    {
        let row = &rows[origin];
        let ghost line = filled(row@);
        let ghost held = flat@;
        let mut index: usize = 0;
        assert(held + line.subrange(0, 0) =~= held);
        while index < row.len()
            invariant
                index <= row@.len(),
                line == filled(row@),
                flat@ == held + line.subrange(0, index as int),
            decreases row.len() - index,
        {
            flat.push(
                match row[index] {
                    Some(seconds) => seconds,
                    None => UNREACHABLE,
                },
            );
            index += 1;
            assert(flat@ =~= held + line.subrange(0, index as int));
        }
        proof {
            assert(line.subrange(0, line.len() as int) =~= line);
            lemma_stacked_push(all.subrange(0, origin as int), line);
            assert(all.subrange(0, origin as int).push(line) =~= all.subrange(0, origin + 1));
        }
        origin += 1;
    }
    assert(all.subrange(0, all.len() as int) =~= all);
    flat
}

/// The points among the first `count` that lie off the streets.
pub open spec fn unsnapped_upto(snaps: Seq<Option<Snap>>, count: int) -> Seq<u32>
    decreases count,
{
    if count <= 0 {
        Seq::empty()
    } else if snaps[count - 1] is None {
        unsnapped_upto(snaps, count - 1).push((count - 1) as u32)
    } else {
        unsnapped_upto(snaps, count - 1)
    }
}

/// The points that lie off the streets.
pub fn unsnapped_points(snaps: &Vec<Option<Snap>>) -> (points: Vec<u32>)
    requires
        snaps@.len() <= u32::MAX,
    ensures
        points@ == unsnapped_upto(snaps@, snaps@.len() as int),
{
    let mut points: Vec<u32> = Vec::new();
    let mut index: usize = 0;
    while index < snaps.len()
        invariant
            index <= snaps@.len() <= u32::MAX,
            points@ == unsnapped_upto(snaps@, index as int),
        decreases snaps.len() - index,
    {
        if snaps[index].is_none() {
            points.push(index as u32);
        }
        index += 1;
    }
    points
}

/// Why an end of a street route is refused; numbers come as they print.
pub open spec fn far_end_text(
    role: Seq<char>,
    latitude: Seq<char>,
    longitude: Seq<char>,
    max_snap_distance: Seq<char>,
    profile: Seq<char>,
) -> Seq<char> {
    joined_text(
        seq![
            "the "@,
            role,
            " ("@,
            latitude,
            ", "@,
            longitude,
            ") is farther than "@,
            max_snap_distance,
            " m from any street '"@,
            profile,
            "' can use"@,
        ],
    )
}

/// The snap of a route's end, or why it is refused.
pub fn snap_endpoint(
    snap: Option<Snap>,
    role: &str,
    latitude: &str,
    longitude: &str,
    max_snap_distance: &str,
    profile: &str,
) -> (end: Result<Snap, ValueError>)
    ensures
        match snap {
            Some(expected) => end == Ok::<Snap, ValueError>(expected),
            None => end matches Err(error) && error.message@ == far_end_text(
                role@,
                latitude@,
                longitude@,
                max_snap_distance@,
                profile@,
            ),
        },
{
    if let Some(snap) = snap {
        return Ok(snap);
    }
    let pieces: [&str; 11] = [
        "the ",
        role,
        " (",
        latitude,
        ", ",
        longitude,
        ") is farther than ",
        max_snap_distance,
        " m from any street '",
        profile,
        "' can use",
    ];
    let text = joined(&pieces);
    assert(pieces@.map_values(|piece: &str| piece@) =~= seq![
        "the "@,
        role@,
        " ("@,
        latitude@,
        ", "@,
        longitude@,
        ") is farther than "@,
        max_snap_distance@,
        " m from any street '"@,
        profile@,
        "' can use"@,
    ]);
    Err(ValueError::new(text))
}

/// Two places are one where both sides are equal numbers; a place is its own
/// where its sides are numbers.
pub proof fn law_same_places(left: (u64, u64), right: (u64, u64))
    ensures
        same_place(left, right) <==> f64_equal(left.0, right.0) && f64_equal(left.1, right.1),
        same_place(left, right) <==> same_place(right, left),
        !f64_is_nan(left.0) && !f64_is_nan(left.1) ==> same_place(left, left),
{
}

/// An origin off the streets reaches nothing. One on them reaches a snapped
/// destination at its own coordinate at no cost, where the cutoff admits
/// anything at all, and every other cell is the search's.
pub proof fn law_finished_cells(
    row: Seq<Option<StreetCost>>,
    origin_snapped: bool,
    origin: (u64, u64),
    destinations: Seq<(u64, u64)>,
    snapped: Seq<bool>,
    max_seconds: u64,
    i: int,
)
    requires
        0 <= i < row.len(),
    ensures
        ({
            let made = finished_row(
                row,
                origin_snapped,
                origin,
                destinations,
                snapped,
                max_seconds,
            );
            let here = f64_equal(destinations[i].0, origin.0) && f64_equal(
                destinations[i].1,
                origin.1,
            ) && snapped[i] && f64_is_cost(max_seconds);
            &&& made.len() == row.len()
            &&& !origin_snapped ==> made[i] is None
            &&& origin_snapped && !here ==> made[i] == row[i]
            &&& origin_snapped && here ==> {
                &&& made[i] matches Some(cell)
                &&& cell.seconds == 0 && cell.network_meters == 0 && cell.connector_meters == 0
                &&& cell.point
            }
        }),
{
}

/// A metered cost stands where both the search and the snap do, with the
/// search's seconds and meters and the snap's connectors; it is no point.
pub proof fn law_metered_costs_keep_their_fields(
    cell: Option<(u32, u64)>,
    connectors: Option<u64>,
)
    ensures
        metered_cost(cell, connectors) is Some <==> cell is Some && connectors is Some,
        metered_cost(cell, connectors) matches Some(cost) ==> cost.seconds == (cell->0).0
            && cost.network_meters == (cell->0).1 && cost.connector_meters == connectors->0
            && !cost.point,
{
}

/// The time of a coordinate to itself is zero where the cutoff admits it.
pub proof fn law_own_time_is_zero(max_seconds: u64)
    ensures
        own_time(max_seconds) is Some <==> f64_is_cost(max_seconds),
        own_time(max_seconds) matches Some(seconds) ==> seconds == 0,
{
}

proof fn lemma_routed_row(from: u32, row: Seq<Option<StreetCost>>, count: int)
    requires
        0 <= count <= row.len() <= u32::MAX,
    ensures
        forall|d: int|
            0 <= d < count && #[trigger] row[d] is Some ==> routed_upto(
                from,
                row,
                count,
            ).contains((from, d as u32, row[d]->0)),
        forall|k: int|
            0 <= k < routed_upto(from, row, count).len() ==> (#[trigger] routed_upto(
                from,
                row,
                count,
            )[k]).0 == from && routed_upto(from, row, count)[k].1 < count
                && row[routed_upto(from, row, count)[k].1 as int] == Some(
                routed_upto(from, row, count)[k].2,
            ),
        forall|j: int, k: int|
            0 <= j < k < routed_upto(from, row, count).len() ==> (#[trigger] routed_upto(
                from,
                row,
                count,
            )[j]).1 < (#[trigger] routed_upto(from, row, count)[k]).1,
    decreases count,
{
    if count > 0 {
        lemma_routed_row(from, row, count - 1);
        let before = routed_upto(from, row, count - 1);
        let after = routed_upto(from, row, count);
        assert forall|d: int|
            0 <= d < count && #[trigger] row[d] is Some implies after.contains(
            (from, d as u32, row[d]->0),
        ) by {
            let entry = (from, d as u32, row[d]->0);
            if d < count - 1 {
                assert(before.contains(entry));
                let at = choose|at: int| 0 <= at < before.len() && before[at] == entry;
                assert(after[at] == entry);
            } else {
                assert(after[after.len() - 1] == entry);
            }
        }
    }
}

/// Whether a cell stands in its origin's row at its destination.
pub open spec fn in_rows(
    rows: Seq<Vec<Option<StreetCost>>>,
    count: int,
    cell: (u32, u32, StreetCost),
) -> bool {
    &&& cell.0 < count
    &&& cell.1 < rows[cell.0 as int]@.len()
    &&& rows[cell.0 as int]@[cell.1 as int] == Some(cell.2)
}

/// The cost matrix lists every routed cell once, beside its origin and
/// destination, in the order of these; a cell without a route is not listed.
pub proof fn law_cost_matrix_lists_routed_cells(
    rows: Seq<Vec<Option<StreetCost>>>,
    count: int,
)
    requires
        0 <= count <= rows.len() <= u32::MAX,
        forall|r: int| 0 <= r < rows.len() ==> (#[trigger] rows[r])@.len() <= u32::MAX,
    ensures
        forall|o: int, d: int|
            0 <= o < count && 0 <= d < rows[o]@.len() && #[trigger] rows[o]@[d] is Some
                ==> routed_rows(rows, count).contains((o as u32, d as u32, rows[o]@[d]->0)),
        forall|k: int|
            0 <= k < routed_rows(rows, count).len() ==> in_rows(
                rows,
                count,
                #[trigger] routed_rows(rows, count)[k],
            ),
        forall|j: int, k: int|
            0 <= j < k < routed_rows(rows, count).len() ==> (#[trigger] routed_rows(
                rows,
                count,
            )[j]).0 < (#[trigger] routed_rows(rows, count)[k]).0 || routed_rows(rows, count)[j].0
                == routed_rows(rows, count)[k].0 && routed_rows(rows, count)[j].1 < routed_rows(
                rows,
                count,
            )[k].1,
    decreases count,
{
    if count > 0 {
        law_cost_matrix_lists_routed_cells(rows, count - 1);
        let own = rows[count - 1]@;
        let from = (count - 1) as u32;
        lemma_routed_row(from, own, own.len() as int);
        let before = routed_rows(rows, count - 1);
        let made = routed_upto(from, own, own.len() as int);
        let after = routed_rows(rows, count);
        assert forall|o: int, d: int|
            0 <= o < count && 0 <= d < rows[o]@.len()
                && #[trigger] rows[o]@[d] is Some implies after.contains(
            (o as u32, d as u32, rows[o]@[d]->0),
        ) by {
            let entry = (o as u32, d as u32, rows[o]@[d]->0);
            if o < count - 1 {
                assert(before.contains(entry));
                let at = choose|at: int| 0 <= at < before.len() && before[at] == entry;
                assert(after[at] == entry);
            } else {
                assert(own[d] is Some);
                assert(made.contains(entry));
                let at = choose|at: int| 0 <= at < made.len() && made[at] == entry;
                assert(after[before.len() + at] == entry);
            }
        }
        assert forall|k: int| 0 <= k < after.len() implies in_rows(
            rows,
            count,
            #[trigger] after[k],
        ) by {
            if k < before.len() {
                assert(after[k] == before[k]);
                assert(in_rows(rows, count - 1, before[k]));
            } else {
                assert(after[k] == made[k - before.len()]);
            }
        }
        assert forall|j: int, k: int| 0 <= j < k < after.len() implies (#[trigger] after[j]).0 < (
        #[trigger] after[k]).0 || after[j].0 == after[k].0 && after[j].1 < after[k].1 by {
            if k < before.len() {
                assert(after[j] == before[j] && after[k] == before[k]);
            } else {
                assert(after[k] == made[k - before.len()]);
                if j < before.len() {
                    assert(after[j] == before[j]);
                    assert(in_rows(rows, count - 1, before[j]));
                } else {
                    assert(after[j] == made[j - before.len()]);
                }
            }
        }
    }
}

/// A street matrix has one cell for each origin and destination, row by row:
/// the search's seconds, or the largest value where it found nothing.
pub proof fn law_street_matrix_cells(
    rows: Seq<Vec<Option<u32>>>,
    width: int,
    origin: int,
    destination: int,
)
    requires
        forall|r: int| 0 <= r < rows.len() ==> (#[trigger] rows[r])@.len() == width,
        0 <= origin < rows.len(),
        0 <= destination < width,
    ensures
        ({
            let flat = stacked(rows.map_values(|row: Vec<Option<u32>>| filled(row@)));
            &&& flat.len() == rows.len() * width
            &&& match rows[origin]@[destination] {
                Some(seconds) => flat[origin * width + destination] == seconds,
                None => flat[origin * width + destination] == u32::MAX,
            }
        }),
{
    let cells = rows.map_values(|row: Vec<Option<u32>>| filled(row@));
    assert forall|r: int| 0 <= r < cells.len() implies (#[trigger] cells[r]).len() == width by {
        assert(rows[r]@.len() == width);
    }
    law_stacked_cell(cells, width as nat, origin, destination);
}

/// The points off the streets are listed once, in order, and no others.
pub proof fn law_unsnapped_points_have_no_snap(snaps: Seq<Option<Snap>>, count: int)
    requires
        0 <= count <= snaps.len() <= u32::MAX,
    ensures
        ({
            let points = unsnapped_upto(snaps, count);
            &&& forall|i: int|
                0 <= i < count && #[trigger] snaps[i] is None ==> points.contains(i as u32)
            &&& forall|k: int|
                0 <= k < points.len() ==> #[trigger] points[k] < count && snaps[points[k] as int]
                    is None
            &&& forall|j: int, k: int|
                0 <= j < k < points.len() ==> #[trigger] points[j] < #[trigger] points[k]
        }),
    decreases count,
{
    if count > 0 {
        law_unsnapped_points_have_no_snap(snaps, count - 1);
        let before = unsnapped_upto(snaps, count - 1);
        let points = unsnapped_upto(snaps, count);
        assert forall|i: int|
            0 <= i < count && #[trigger] snaps[i] is None implies points.contains(i as u32) by {
            if i < count - 1 {
                assert(before.contains(i as u32));
                let at = choose|at: int| 0 <= at < before.len() && before[at] == i as u32;
                assert(points[at] == i as u32);
            } else {
                assert(points[points.len() - 1] == i as u32);
            }
        }
    }
}

} // verus!
