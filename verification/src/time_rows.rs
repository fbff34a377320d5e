//! Travel-time matrices and window percentiles from one-to-all arrival rows.

use crate::links::{earliest, ends_at, law_earliest_adds_the_walk};
use crate::rows::{law_stacked_cell, lemma_cell_position, lemma_stacked_push, stacked};
use vstd::prelude::*;

verus! {

/// The matrix value of a pair that is not reached.
pub const UNREACHABLE: u32 = 0xFFFF_FFFF;

/// Seconds from departure to an arrival.
pub open spec fn travel_time(arrival: Option<u32>, departure: u32) -> u32 {
    match arrival {
        Some(at) => (at - departure) as u32,
        None => UNREACHABLE,
    }
}

pub open spec fn travel_times(row: Seq<Option<u32>>, departure: u32) -> Seq<u32> {
    row.map_values(|arrival: Option<u32>| travel_time(arrival, departure))
}

/// Whether no arrival of a row lies before the departure.
pub open spec fn departs_by(row: Seq<Option<u32>>, departure: u32) -> bool {
    forall|i: int|
        0 <= i < row.len() ==> (#[trigger] row[i] matches Some(at) ==> at >= departure)
}

pub open spec fn time_rows(rows: Seq<Vec<Option<u32>>>, departure: u32) -> Seq<Seq<u32>> {
    rows.map_values(|row: Vec<Option<u32>>| travel_times(row@, departure))
}

/// Travel times of several origins to every stop, row-major; unreachable
/// pairs hold the maximum.
pub fn travel_time_matrix(rows: &Vec<Vec<Option<u32>>>, departure: u32) -> (flat: Vec<u32>)
    requires
        forall|r: int| 0 <= r < rows@.len() ==> departs_by((#[trigger] rows@[r])@, departure),
    ensures
        flat@ == stacked(time_rows(rows@, departure)),
{
    let ghost all = time_rows(rows@, departure);
    let mut flat: Vec<u32> = Vec::new();
    let mut index: usize = 0;
    assert(all.subrange(0, 0) =~= Seq::empty());
    while index < rows.len()
        invariant
            index <= rows@.len(),
            all == time_rows(rows@, departure),
            forall|r: int| 0 <= r < rows@.len() ==> departs_by((#[trigger] rows@[r])@, departure),
            flat@ == stacked(all.subrange(0, index as int)),
        decreases rows.len() - index,
    {
        let row = &rows[index];
        let ghost line = all[index as int];
        let ghost before = flat@;
        assert(departs_by(rows@[index as int]@, departure));
        assert(before + line.subrange(0, 0) =~= before);
        let mut at: usize = 0;
        while at < row.len()
            invariant
                at <= row@.len(),
                line == travel_times(row@, departure),
                departs_by(row@, departure),
                flat@ == before + line.subrange(0, at as int),
            decreases row.len() - at,
        {
            assert(row@[at as int] matches Some(arrival) ==> arrival >= departure);
            let seconds: u32 = match row[at] {
                Some(arrival) => arrival - departure,
                None => UNREACHABLE,
            };
            flat.push(seconds);
            at += 1;
            assert(flat@ =~= before + line.subrange(0, at as int));
        }
        proof {
            assert(line.subrange(0, line.len() as int) =~= line);
            lemma_stacked_push(all.subrange(0, index as int), line);
            assert(all.subrange(0, index as int).push(line) =~= all.subrange(0, index + 1));
        }
        index += 1;
    }
    assert(all.subrange(0, all.len() as int) =~= all);
    flat
}

/// The reached stops of a row with their travel times, by stop.
pub open spec fn reached_upto(row: Seq<Option<u32>>, departure: u32, count: int) -> Seq<(u32, u32)>
    decreases count,
{
    if count <= 0 {
        Seq::empty()
    } else {
        match row[count - 1] {
            Some(at) => reached_upto(row, departure, count - 1).push(
                ((count - 1) as u32, (at - departure) as u32),
            ),
            None => reached_upto(row, departure, count - 1),
        }
    }
}

/// A one-to-all row as stop and travel-time pairs; unreachable stops are
/// absent.
pub fn reached_times(row: &Vec<Option<u32>>, departure: u32) -> (reached: Vec<(u32, u32)>)
    requires
        row@.len() <= u32::MAX,
        departs_by(row@, departure),
    ensures
        reached@ == reached_upto(row@, departure, row@.len() as int),
{
    let mut reached: Vec<(u32, u32)> = Vec::new();
    let mut index: usize = 0;
    while index < row.len()
        invariant
            index <= row@.len() <= u32::MAX,
            departs_by(row@, departure),
            reached@ == reached_upto(row@, departure, index as int),
        decreases row.len() - index,
    {
        assert(row@[index as int] matches Some(at) ==> at >= departure);
        if let Some(at) = row[index] {
            reached.push((index as u32, at - departure));
        }
        index += 1;
    }
    reached
}

pub open spec fn link_offsets(links: Seq<(u32, u32, u64)>) -> Seq<(u32, u32)> {
    links.map_values(|link: (u32, u32, u64)| (link.0, link.1))
}

pub open spec fn faster(seconds: u32, walk: Option<(u32, u64)>) -> u32 {
    match walk {
        Some((walked, _)) => if walked < seconds {
            walked
        } else {
            seconds
        },
        None => seconds,
    }
}

/// The time of a point pair: the earliest over the destination's egress
/// links, or walking directly where that is faster.
pub open spec fn point_time(
    arrivals: Seq<Option<u32>>,
    links: Seq<(u32, u32, u64)>,
    walk: Option<(u32, u64)>,
    departure: u32,
) -> u32 {
    faster(
        travel_time(earliest(arrivals, link_offsets(links), links.len() as int), departure),
        walk,
    )
}

pub open spec fn links_in_range(links: Seq<(u32, u32, u64)>, stops: nat) -> bool {
    forall|i: int| 0 <= i < links.len() ==> (#[trigger] links[i]).0 < stops
}

pub proof fn lemma_earliest_departs(
    arrivals: Seq<Option<u32>>,
    offsets: Seq<(u32, u32)>,
    departure: u32,
    count: int,
)
    requires
        departs_by(arrivals, departure),
        0 <= count <= offsets.len(),
        forall|i: int| 0 <= i < offsets.len() ==> (#[trigger] offsets[i]).0 < arrivals.len(),
    ensures
        earliest(arrivals, offsets, count) matches Some(at) ==> at >= departure && at < UNREACHABLE,
    decreases count,
{
    if count > 0 {
        lemma_earliest_departs(arrivals, offsets, departure, count - 1);
        assert(offsets[count - 1].0 < arrivals.len());
        assert(arrivals[offsets[count - 1].0 as int] matches Some(at) ==> at >= departure);
    }
}

fn point_cell(
    arrivals: &Vec<Option<u32>>,
    links: &Vec<(u32, u32, u64)>,
    walk: Option<(u32, u64)>,
    departure: u32,
) -> (seconds: u32)
    requires
        departs_by(arrivals@, departure),
        links_in_range(links@, arrivals@.len()),
    ensures
        seconds == point_time(arrivals@, links@, walk, departure),
{
    let ghost offsets = link_offsets(links@);
    let mut best: Option<u32> = None;
    let mut index: usize = 0;
    while index < links.len()
        invariant
            index <= links@.len(),
            offsets == link_offsets(links@),
            links_in_range(links@, arrivals@.len()),
            best == earliest(arrivals@, offsets, index as int),
        decreases links.len() - index,
    {
        let (stop, seconds, _): (u32, u32, u64) = links[index];
        assert(links@[index as int].0 < arrivals@.len());
        if let Some(at) = arrivals[stop as usize] {
            if let Some(sum) = at.checked_add(seconds) {
                if sum != UNREACHABLE {
                    best = match best {
                        Some(held) => Some(
                            if sum < held {
                                sum
                            } else {
                                held
                            },
                        ),
                        None => Some(sum),
                    };
                }
            }
        }
        index += 1;
    }
    proof {
        assert forall|i: int| 0 <= i < offsets.len() implies (#[trigger] offsets[i]).0
            < arrivals@.len() by {
            assert(links@[i].0 < arrivals@.len());
        }
        lemma_earliest_departs(arrivals@, offsets, departure, links@.len() as int);
    }
    let transit: u32 = match best {
        Some(at) => at - departure,
        None => UNREACHABLE,
    };
    match walk {
        Some((walked, _)) => if walked < transit {
            walked
        } else {
            transit
        },
        None => transit,
    }
}

/// The point matrix row by row.
pub open spec fn point_rows(
    rows: Seq<Vec<Option<u32>>>,
    egress: Seq<Vec<(u32, u32, u64)>>,
    walk: Seq<Vec<Option<(u32, u64)>>>,
    departure: u32,
) -> Seq<Seq<u32>> {
    Seq::new(
        rows.len(),
        |origin: int|
            Seq::new(
                egress.len(),
                |point: int|
                    point_time(
                        rows[origin]@,
                        egress[point]@,
                        walk[origin]@[point],
                        departure,
                    ),
            ),
    )
}

/// Travel times between coordinate points, row-major: each destination joined
/// through its egress links, walking directly where that is faster.
pub fn travel_time_matrix_from_points(
    rows: &Vec<Vec<Option<u32>>>,
    egress: &Vec<Vec<(u32, u32, u64)>>,
    walk: &Vec<Vec<Option<(u32, u64)>>>,
    departure: u32,
) -> (flat: Vec<u32>)
    requires
        walk@.len() == rows@.len(),
        forall|r: int|
            0 <= r < rows@.len() ==> departs_by((#[trigger] rows@[r])@, departure)
                && walk@[r]@.len() == egress@.len(),
        forall|p: int, r: int|
            0 <= p < egress@.len() && 0 <= r < rows@.len() ==> links_in_range(
                (#[trigger] egress@[p])@,
                (#[trigger] rows@[r])@.len(),
            ),
    ensures
        flat@ == stacked(point_rows(rows@, egress@, walk@, departure)),
{
    let ghost all = point_rows(rows@, egress@, walk@, departure);
    let mut flat: Vec<u32> = Vec::new();
    let mut origin: usize = 0;
    assert(all.subrange(0, 0) =~= Seq::empty());
    while origin < rows.len()
        invariant
            origin <= rows@.len() == walk@.len(),
            all == point_rows(rows@, egress@, walk@, departure),
            forall|r: int|
                0 <= r < rows@.len() ==> departs_by((#[trigger] rows@[r])@, departure)
                    && walk@[r]@.len() == egress@.len(),
            forall|p: int, r: int|
                0 <= p < egress@.len() && 0 <= r < rows@.len() ==> links_in_range(
                    (#[trigger] egress@[p])@,
                    (#[trigger] rows@[r])@.len(),
                ),
            flat@ == stacked(all.subrange(0, origin as int)),
        decreases rows.len() - origin,
    {
        let ghost line = all[origin as int];
        let ghost before = flat@;
        assert(departs_by(rows@[origin as int]@, departure));
        assert(before + line.subrange(0, 0) =~= before);
        let mut point: usize = 0;
        while point < egress.len()
            invariant
                point <= egress@.len(),
                origin < rows@.len() == walk@.len(),
                all == point_rows(rows@, egress@, walk@, departure),
                line == all[origin as int],
                departs_by(rows@[origin as int]@, departure),
                walk@[origin as int]@.len() == egress@.len(),
                forall|p: int, r: int|
                    0 <= p < egress@.len() && 0 <= r < rows@.len() ==> links_in_range(
                        (#[trigger] egress@[p])@,
                        (#[trigger] rows@[r])@.len(),
                    ),
                flat@ == before + line.subrange(0, point as int),
            decreases egress.len() - point,
        {
            assert(links_in_range(egress@[point as int]@, rows@[origin as int]@.len()));
            flat.push(point_cell(&rows[origin], &egress[point], walk[origin][point], departure));
            point += 1;
            assert(flat@ =~= before + line.subrange(0, point as int));
        }
        proof {
            assert(line.subrange(0, line.len() as int) =~= line);
            lemma_stacked_push(all.subrange(0, origin as int), line);
            assert(all.subrange(0, origin as int).push(line) =~= all.subrange(0, origin + 1));
        }
        origin += 1;
    }
    assert(all.subrange(0, all.len() as int) =~= all);
    flat
}

/// Caps every percentile of every cell by the direct walk, which does not
/// depend on the departure. Cell `(origin, point)` has its percentiles at
/// `(origin * points + point) * planes` and behind.
pub fn cap_by_walk(flat: &mut Vec<u32>, walk: &Vec<Vec<Option<(u32, u64)>>>, points: usize, planes: usize)
    requires
        old(flat)@.len() == walk@.len() * points * planes,
        forall|r: int| 0 <= r < walk@.len() ==> (#[trigger] walk@[r])@.len() == points,
    ensures
        final(flat)@.len() == old(flat)@.len(),
        forall|i: int|
            0 <= i < old(flat)@.len() ==> #[trigger] final(flat)@[i] == faster(
                old(flat)@[i],
                walk@[(i / planes as int) / points as int]@[(i / planes as int) % points as int],
            ),
        forall|i: int|
            0 <= i < old(flat)@.len() ==> #[trigger] final(flat)@[i] <= old(flat)@[i],
{
    let ghost start = flat@;
    let length: usize = flat.len();
    let mut at: usize = 0;
    let mut origin: usize = 0;
    let ghost cells = (walk@.len() * points) as int;
    proof {
        assert(0 * points == 0 && 0 * planes as int == 0) by (nonlinear_arith);
    }
    while origin < walk.len()
        invariant
            origin <= walk@.len(),
            length == start.len() == flat@.len(),
            cells == walk@.len() * points,
            start.len() == cells * planes,
            forall|r: int| 0 <= r < walk@.len() ==> (#[trigger] walk@[r])@.len() == points,
            at == origin * points * planes,
            forall|i: int|
                0 <= i < at ==> #[trigger] flat@[i] == faster(
                    start[i],
                    walk@[(i / planes as int) / points as int]@[(i / planes as int)
                        % points as int],
                ),
            forall|i: int| at <= i < start.len() ==> #[trigger] flat@[i] == start[i],
        decreases walk.len() - origin,
    {
        assert(walk@[origin as int]@.len() == points);
        let mut point: usize = 0;
        proof {
            assert((origin * points + 0) * planes == origin * points * planes) by (nonlinear_arith);
        }
        while point < points
            invariant
                origin < walk@.len(),
                point <= points,
                length == start.len() == flat@.len(),
                cells == walk@.len() * points,
                start.len() == cells * planes,
                walk@[origin as int]@.len() == points,
                at == (origin * points + point) * planes,
                forall|i: int|
                    0 <= i < at ==> #[trigger] flat@[i] == faster(
                        start[i],
                        walk@[(i / planes as int) / points as int]@[(i / planes as int)
                            % points as int],
                    ),
                forall|i: int| at <= i < start.len() ==> #[trigger] flat@[i] == start[i],
            decreases points - point,
        {
            let cell: Option<(u32, u64)> = walk[origin][point];
            let ghost which = origin * points + point;
            proof {
                assert(which + 1 <= cells) by (nonlinear_arith)
                    requires
                        which == origin * points + point,
                        cells == walk@.len() * points,
                        origin + 1 <= walk@.len(),
                        point < points,
                ;
                assert((which + 1) * planes == which * planes + planes && (which + 1) * planes
                    <= cells * planes) by (nonlinear_arith)
                    requires
                        which + 1 <= cells,
                ;
                lemma_cell_position(origin as int, points as int, point as int);
            }
            let mut plane: usize = 0;
            while plane < planes
                invariant
                    plane <= planes,
                    length == start.len() == flat@.len(),
                    at == which * planes + plane,
                    which * planes + planes <= length,
                    which >= 0,
                    which / points as int == origin,
                    which % points as int == point,
                    cell == walk@[origin as int]@[point as int],
                    forall|i: int|
                        0 <= i < at ==> #[trigger] flat@[i] == faster(
                            start[i],
                            walk@[(i / planes as int) / points as int]@[(i / planes as int)
                                % points as int],
                        ),
                    forall|i: int| at <= i < start.len() ==> #[trigger] flat@[i] == start[i],
                decreases planes - plane,
            {
                proof {
                    lemma_cell_position(which, planes as int, plane as int);
                }
                let held: u32 = flat[at];
                let capped: u32 = match cell {
                    Some((walked, _)) => if walked < held {
                        walked
                    } else {
                        held
                    },
                    None => held,
                };
                flat.set(at, capped);
                plane += 1;
                at += 1;
            }
            point += 1;
        }
        proof {
            assert((origin * points + points) * planes == (origin + 1) * points * planes)
                by (nonlinear_arith);
        }
        origin += 1;
    }
    proof {
        assert(at == start.len());
    }
}

/// A travel time is what passes from the departure to the arrival; without an
/// arrival it is the largest value there is.
pub proof fn law_travel_time_leads_to_the_arrival(arrival: Option<u32>, departure: u32)
    ensures
        arrival is None ==> travel_time(arrival, departure) == u32::MAX,
        arrival matches Some(at) ==> at >= departure ==> departure + travel_time(arrival, departure)
            == at,
{
}

/// A stop matrix has one cell for each origin and stop, row by row: the time
/// from the departure to that origin's arrival at the stop.
pub proof fn law_stop_matrix_cells(
    rows: Seq<Vec<Option<u32>>>,
    departure: u32,
    width: int,
    origin: int,
    stop: int,
)
    requires
        forall|r: int| 0 <= r < rows.len() ==> (#[trigger] rows[r])@.len() == width,
        0 <= origin < rows.len(),
        0 <= stop < width,
        rows[origin]@[stop] matches Some(at) ==> at >= departure,
    ensures
        stacked(time_rows(rows, departure)).len() == rows.len() * width,
        origin * width + stop < rows.len() * width,
        ({
            let cell = stacked(time_rows(rows, departure))[origin * width + stop];
            match rows[origin]@[stop] {
                Some(at) => departure + cell == at,
                None => cell == u32::MAX,
            }
        }),
{
    let times = time_rows(rows, departure);
    assert forall|r: int| 0 <= r < times.len() implies (#[trigger] times[r]).len() == width by {
        assert(rows[r]@.len() == width);
    }
    law_stacked_cell(times, width as nat, origin, stop);
    assert(origin * width + stop < rows.len() * width) by (nonlinear_arith)
        requires
            0 <= origin < rows.len(),
            0 <= stop < width,
    ;
}

/// The reached stops are listed once, in stop order, with the time from the
/// departure to their arrival; a stop that is not reached is not listed.
pub proof fn law_reached_times_are_the_arrivals(
    row: Seq<Option<u32>>,
    departure: u32,
    count: int,
)
    requires
        0 <= count <= row.len() <= u32::MAX,
        departs_by(row, departure),
    ensures
        ({
            let reached = reached_upto(row, departure, count);
            &&& forall|s: int|
                0 <= s < count && #[trigger] row[s] is Some ==> reached.contains(
                    (s as u32, (row[s]->0 - departure) as u32),
                )
            &&& forall|k: int|
                0 <= k < reached.len() ==> (#[trigger] reached[k]).0 < count && (
                row[reached[k].0 as int] matches Some(at) && departure + reached[k].1 == at)
            &&& forall|j: int, k: int|
                0 <= j < k < reached.len() ==> (#[trigger] reached[j]).0 < (#[trigger] reached[k]).0
        }),
    decreases count,
{
    if count > 0 {
        law_reached_times_are_the_arrivals(row, departure, count - 1);
        let before = reached_upto(row, departure, count - 1);
        let reached = reached_upto(row, departure, count);
        assert(row[count - 1] matches Some(at) ==> at >= departure);
        assert forall|s: int|
            0 <= s < count && #[trigger] row[s] is Some implies reached.contains(
            (s as u32, (row[s]->0 - departure) as u32),
        ) by {
            let entry = (s as u32, (row[s]->0 - departure) as u32);
            if s < count - 1 {
                assert(before.contains(entry));
                let at = choose|at: int| 0 <= at < before.len() && before[at] == entry;
                assert(reached[at] == entry);
            } else {
                assert(reached[reached.len() - 1] == entry);
            }
        }
    }
}

/// Whether riding to a link's stop and walking its link takes so long.
pub open spec fn taken_over(
    arrival: Option<u32>,
    walk: u32,
    departure: u32,
    seconds: u32,
) -> bool {
    arrival matches Some(at) && departure + seconds == at + walk
}

/// The time of a point pair is no longer than the direct walk, and no longer
/// than riding to any of the links and walking it; it is one of these, or the
/// largest value where there is none.
pub proof fn law_point_times_are_least(
    arrivals: Seq<Option<u32>>,
    links: Seq<(u32, u32, u64)>,
    walk: Option<(u32, u64)>,
    departure: u32,
)
    requires
        departs_by(arrivals, departure),
        links_in_range(links, arrivals.len()),
    ensures
        ({
            let seconds = point_time(arrivals, links, walk, departure);
            &&& walk matches Some((walked, _)) ==> seconds <= walked
            &&& forall|i: int|
                0 <= i < links.len() && arrivals[(#[trigger] links[i]).0 as int] is Some
                    && arrivals[links[i].0 as int]->0 + links[i].1 < u32::MAX ==> departure
                    + seconds <= arrivals[links[i].0 as int]->0 + links[i].1
            &&& {
                ||| seconds == u32::MAX
                ||| walk matches Some((walked, _)) && seconds == walked
                ||| exists|i: int|
                    0 <= i < links.len() && taken_over(
                        arrivals[(#[trigger] links[i]).0 as int],
                        links[i].1,
                        departure,
                        seconds,
                    )
            }
        }),
{
    let offsets = link_offsets(links);
    law_earliest_adds_the_walk(arrivals, offsets, links.len() as int);
    let best = earliest(arrivals, offsets, links.len() as int);
    assert forall|i: int|
        0 <= i < offsets.len() implies (#[trigger] offsets[i]).0 < arrivals.len() by {
        assert(links[i].0 < arrivals.len());
    }
    lemma_earliest_departs(arrivals, offsets, departure, links.len() as int);
    let seconds = point_time(arrivals, links, walk, departure);
    assert forall|i: int|
        0 <= i < links.len() && arrivals[(#[trigger] links[i]).0 as int] is Some
            && arrivals[links[i].0 as int]->0 + links[i].1 < u32::MAX implies departure + seconds
        <= arrivals[links[i].0 as int]->0 + links[i].1 by {
        assert(offsets[i] == (links[i].0, links[i].1));
    }
    if let Some(at) = best {
        let i = choose|i: int|
            0 <= i < links.len() && ends_at(
                arrivals[(#[trigger] offsets[i]).0 as int],
                offsets[i].1,
                at,
            );
        assert(offsets[i] == (links[i].0, links[i].1));
        if departure + seconds == at {
            assert(taken_over(arrivals[links[i].0 as int], links[i].1, departure, seconds));
        }
    }
}

/// A point matrix has one cell for each origin and point, row by row: the
/// time of that pair over the origin's arrivals, the point's links and the
/// walk between the two.
pub proof fn law_point_matrix_cells(
    rows: Seq<Vec<Option<u32>>>,
    egress: Seq<Vec<(u32, u32, u64)>>,
    walk: Seq<Vec<Option<(u32, u64)>>>,
    departure: u32,
    origin: int,
    point: int,
)
    requires
        0 <= origin < rows.len(),
        0 <= point < egress.len(),
    ensures
        stacked(point_rows(rows, egress, walk, departure)).len() == rows.len() * egress.len(),
        stacked(point_rows(rows, egress, walk, departure))[origin * egress.len() + point]
            == point_time(rows[origin]@, egress[point]@, walk[origin]@[point], departure),
{
    let cells = point_rows(rows, egress, walk, departure);
    law_stacked_cell(cells, egress.len(), origin, point);
}

/// A capped time is no longer than it was and no longer than the walk, and is
/// one of the two.
pub proof fn law_capping_takes_the_shorter(seconds: u32, walk: Option<(u32, u64)>)
    ensures
        faster(seconds, walk) <= seconds,
        walk is None ==> faster(seconds, walk) == seconds,
        walk matches Some((walked, _)) ==> faster(seconds, walk) <= walked && (faster(seconds, walk)
            == walked || faster(seconds, walk) == seconds),
{
}

} // verus!
