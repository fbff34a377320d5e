//! The rows of the Pareto street reduction: direct frontiers per stop, their
//! extension over one installed transfer, and the flat result.

use crate::bytes::{f64_is_nan, f64_rank, is_nan, less};
use crate::pareto::{
    frontier_of, inserted, inserted_all, law_frontier, law_frontier_ignores_order,
    law_frontier_matches_every_candidate, law_frontier_seconds_differ,
    law_frontier_trades_time_for_grams, matched, no_worse_than, pareto_insert, ParetoChoice,
};
use crate::reduction::{
    bears_rental, carried, carry_source, carry_target, direct_choice, flags_view,
    law_direct_choices_are_the_cells, row_wf, serves, unsnapped_policy_text, ModeRow, StreetCell,
    Transfer, TransferRows, Winner,
};
use crate::street_decode::lemma_row_of;
use crate::text::ValueError;
use vstd::prelude::*;

verus! {

/// One mode's row with the grams its vehicle would emit to each stop.
pub struct GramRow {
    pub row: ModeRow,
    pub walk: bool,
    pub grams: Vec<u64>,
}

/// Walking rides free, and zero meters ridden are zero grams whatever the
/// factor: the zero-coincident convention stays exact even when the factor
/// is unresolved.
pub open spec fn rides_free(walk: bool, network_m: u64) -> bool {
    walk || (!f64_is_nan(network_m) && f64_rank(network_m) <= 0)
}

fn is_free(walk: bool, network_m: u64) -> (free: bool)
    ensures
        free == rides_free(walk, network_m),
{
    walk || (!is_nan(network_m) && !less(0, network_m))
}

pub open spec fn gram_row_wf(row: Option<GramRow>, stops: nat) -> bool {
    row matches Some(row) ==> row_wf(Some(row.row), stops) && row.grams@.len() == stops
}

/// A mode's point at a stop, where it reaches and may serve it.
pub open spec fn direct_point(row: GramRow, order: int, stop: int) -> Option<ParetoChoice> {
    match direct_choice(row.row, order, stop) {
        Some(winner) => Some(
            ParetoChoice {
                winner,
                grams: if rides_free(row.walk, winner.network_m) {
                    0
                } else {
                    row.grams@[stop]
                },
                slot: None,
            },
        ),
        None => None,
    }
}

/// The points of the first `count` modes at a stop, in declared order.
pub open spec fn direct_points(rows: Seq<Option<GramRow>>, stop: int, count: int) -> Seq<
    ParetoChoice,
>
    decreases count,
{
    if count <= 0 {
        Seq::empty()
    } else {
        let before = direct_points(rows, stop, count - 1);
        match rows[count - 1] {
            Some(row) => match direct_point(row, count - 1, stop) {
                Some(point) => before.push(point),
                None => before,
            },
            None => before,
        }
    }
}

pub open spec fn any_gram_row(rows: Seq<Option<GramRow>>) -> bool {
    exists|i: int| 0 <= i < rows.len() && #[trigger] rows[i] is Some
}

/// The direct frontier of a stop; none where the query excludes it.
pub open spec fn direct_frontier(rows: Seq<Option<GramRow>>, excluded: Seq<bool>, stop: int) -> Seq<
    ParetoChoice,
> {
    if excluded[stop] {
        Seq::empty()
    } else {
        frontier_of(direct_points(rows, stop, rows.len() as int))
    }
}

proof fn lemma_insert_push(
    start: Seq<ParetoChoice>,
    candidates: Seq<ParetoChoice>,
    candidate: ParetoChoice,
)
    ensures
        inserted_all(start, candidates.push(candidate)) == inserted(
            inserted_all(start, candidates),
            candidate,
        ),
{
    assert(candidates.push(candidate).drop_last() =~= candidates);
}

/// Whether a point holds at most one rental.
pub open spec fn single_rental(point: ParetoChoice) -> bool {
    point.winner.rentals <= 1
}

proof fn lemma_direct_points(rows: Seq<Option<GramRow>>, stop: int, count: int)
    ensures
        forall|i: int|
            0 <= i < direct_points(rows, stop, count).len() ==> single_rental(
                #[trigger] direct_points(rows, stop, count)[i],
            ),
    decreases count,
{
    if count > 0 {
        lemma_direct_points(rows, stop, count - 1);
        let before = direct_points(rows, stop, count - 1);
        let points = direct_points(rows, stop, count);
        assert forall|i: int| 0 <= i < points.len() implies single_rental(#[trigger] points[i]) by {
            if i < before.len() {
                assert(points[i] == before[i]);
            }
        }
    }
}

/// A direct frontier point rents at most its own vehicle.
pub proof fn law_direct_points_rent_once(rows: Seq<Option<GramRow>>, excluded: Seq<bool>, stop: int)
    ensures
        forall|i: int|
            0 <= i < direct_frontier(rows, excluded, stop).len() ==> single_rental(
                #[trigger] direct_frontier(rows, excluded, stop)[i],
            ),
{
    let points = direct_points(rows, stop, rows.len() as int);
    lemma_direct_points(rows, stop, rows.len() as int);
    law_frontier(points);
    let frontier = direct_frontier(rows, excluded, stop);
    assert forall|i: int| 0 <= i < frontier.len() implies single_rental(#[trigger] frontier[i]) by {
        assert(points.contains(frontier[i]));
        let at = choose|at: int| 0 <= at < points.len() && points[at] == frontier[i];
        assert(single_rental(points[at]));
    }
}

/// The direct frontiers of a policy's rows: per stop, the points over
/// seconds and grams that no other mode's point beats.
pub fn direct_frontiers(rows: &Vec<Option<GramRow>>, excluded: &Vec<bool>) -> (frontiers: Result<
    Vec<Vec<ParetoChoice>>,
    ValueError,
>)
    requires
        forall|i: int|
            0 <= i < rows@.len() ==> gram_row_wf(#[trigger] rows@[i], excluded@.len()),
    ensures
        frontiers is Ok == any_gram_row(rows@),
        frontiers matches Err(error) ==> error.message@ == unsnapped_policy_text(),
        frontiers matches Ok(frontiers) ==> {
            &&& frontiers@.len() == excluded@.len()
            &&& forall|stop: int|
                0 <= stop < excluded@.len() ==> (#[trigger] frontiers@[stop])@ == direct_frontier(
                    rows@,
                    excluded@,
                    stop,
                )
        },
{
    let mut snapped: bool = false;
    let mut order: usize = 0;
    while order < rows.len()
        invariant
            order <= rows@.len(),
            snapped == exists|i: int| 0 <= i < order && #[trigger] rows@[i] is Some,
        decreases rows.len() - order,
    {
        if rows[order].is_some() {
            assert(rows@[order as int] is Some);
            snapped = true;
        }
        order += 1;
    }
    if !snapped {
        return Err(
            ValueError::new(
                "coordinate too far from the multimodal street network for every policy mode".to_owned(),
            ),
        );
    }
    let mut frontiers: Vec<Vec<ParetoChoice>> = Vec::new();
    let mut stop: usize = 0;
    while stop < excluded.len()
        invariant
            stop <= excluded@.len(),
            frontiers@.len() == stop,
            forall|i: int|
                0 <= i < rows@.len() ==> gram_row_wf(#[trigger] rows@[i], excluded@.len()),
            forall|s: int|
                0 <= s < stop ==> (#[trigger] frontiers@[s])@ == direct_frontier(
                    rows@,
                    excluded@,
                    s,
                ),
        decreases excluded.len() - stop,
    {
        let frontier = if excluded[stop] {
            Vec::new()
        } else {
            stop_frontier(rows, stop, Ghost(excluded@.len()))
        };
        frontiers.push(frontier);
        stop += 1;
    }
    Ok(frontiers)
}

fn stop_frontier(rows: &Vec<Option<GramRow>>, stop: usize, Ghost(stops): Ghost<nat>) -> (frontier:
    Vec<ParetoChoice>)
    requires
        stop < stops,
        forall|i: int| 0 <= i < rows@.len() ==> gram_row_wf(#[trigger] rows@[i], stops),
    ensures
        frontier@ == frontier_of(direct_points(rows@, stop as int, rows@.len() as int)),
{
    let mut frontier: Vec<ParetoChoice> = Vec::new();
    let mut order: usize = 0;
    while order < rows.len()
        invariant
            order <= rows@.len(),
            stop < stops,
            forall|i: int| 0 <= i < rows@.len() ==> gram_row_wf(#[trigger] rows@[i], stops),
            frontier@ == frontier_of(direct_points(rows@, stop as int, order as int)),
        decreases rows.len() - order,
    {
        let ghost before = direct_points(rows@, stop as int, order as int);
        if let Some(row) = &rows[order] {
            assert(gram_row_wf(rows@[order as int], stops));
            let eligible: bool = match &row.row.eligible {
                Some(mask) => mask[stop],
                None => true,
            };
            match (row.row.cells[stop], row.row.links[stop]) {
                (Some(cell), Some(snap)) => {
                    if eligible {
                        let winner = Winner {
                            seconds: cell.seconds,
                            rentals: if row.row.rental {
                                1
                            } else {
                                0
                            },
                            transfer_rental: false,
                            order,
                            snap,
                            via: None,
                            network_m: cell.network_m,
                            total_m: cell.total_m,
                            walk_transfer_m: 0,
                        };
                        let grams: u64 = if is_free(row.walk, cell.network_m) {
                            0
                        } else {
                            row.grams[stop]
                        };
                        let point = ParetoChoice { winner, grams, slot: None };
                        proof {
                            assert(direct_point(*row, order as int, stop as int) == Some(point));
                            lemma_insert_push(Seq::empty(), before, point);
                        }
                        pareto_insert(&mut frontier, point);
                    }
                },
                _ => {},
            }
        }
        order += 1;
    }
    frontier
}

/// One frontier point carried over one transfer.
#[derive(Debug, Clone, Copy, PartialEq, Eq, Structural)]
pub struct Extension {
    pub source: usize,
    pub point: usize,
    pub slot: usize,
    pub target: usize,
}

/// The extensions of the first `points` points over transfer `slot`; a sum
/// past the clock's range extends nothing.
pub open spec fn slot_extensions(
    seeds: Seq<Seq<ParetoChoice>>,
    transfers: TransferRows,
    egress: bool,
    slot: int,
    points: int,
) -> Seq<Extension>
    decreases points,
{
    if points <= 0 {
        Seq::empty()
    } else {
        let before = slot_extensions(seeds, transfers, egress, slot, points - 1);
        let source = carry_source(transfers, slot, egress);
        if seeds[source][points - 1].winner.seconds + transfers.edges@[slot].seconds <= u32::MAX {
            before.push(
                Extension {
                    source: source as usize,
                    point: (points - 1) as usize,
                    slot: slot as usize,
                    target: carry_target(transfers, slot, egress) as usize,
                },
            )
        } else {
            before
        }
    }
}

/// The extensions over the first `slots` transfers, in transfer order; none
/// into an excluded stop.
pub open spec fn extensions_over(
    seeds: Seq<Seq<ParetoChoice>>,
    excluded: Seq<bool>,
    transfers: TransferRows,
    egress: bool,
    slots: int,
) -> Seq<Extension>
    decreases slots,
{
    if slots <= 0 {
        Seq::empty()
    } else {
        let slot = slots - 1;
        let before = extensions_over(seeds, excluded, transfers, egress, slot);
        if excluded[carry_target(transfers, slot, egress)] {
            before
        } else {
            let source = carry_source(transfers, slot, egress);
            before + slot_extensions(
                seeds,
                transfers,
                egress,
                slot,
                seeds[source].len() as int,
            )
        }
    }
}

pub open spec fn points_view(frontiers: Seq<Vec<ParetoChoice>>) -> Seq<Seq<ParetoChoice>> {
    frontiers.map_values(|frontier: Vec<ParetoChoice>| frontier@)
}

/// Whether an extension names a point, a transfer and a stop that exist.
pub open spec fn extension_wf(
    extension: Extension,
    seeds: Seq<Seq<ParetoChoice>>,
    transfers: TransferRows,
) -> bool {
    &&& extension.source < seeds.len()
    &&& extension.target < seeds.len()
    &&& extension.slot < transfers.edges@.len()
    &&& extension.point < seeds[extension.source as int].len()
    &&& seeds[extension.source as int][extension.point as int].winner.seconds
        + transfers.edges@[extension.slot as int].seconds <= u32::MAX
}

/// Lists every extension of the direct frontiers over one installed
/// transfer, so that their grams can be summed.
pub fn pareto_extensions(
    seeds: &Vec<Vec<ParetoChoice>>,
    excluded: &Vec<bool>,
    transfers: &TransferRows,
    egress: bool,
) -> (extensions: Vec<Extension>)
    requires
        seeds@.len() == excluded@.len(),
        transfers.wf(excluded@.len()),
    ensures
        extensions@ == extensions_over(
            points_view(seeds@),
            excluded@,
            *transfers,
            egress,
            transfers.edges@.len() as int,
        ),
        forall|k: int|
            0 <= k < extensions@.len() ==> extension_wf(
                #[trigger] extensions@[k],
                points_view(seeds@),
                *transfers,
            ),
{
    let stops: usize = excluded.len();
    let ghost views = points_view(seeds@);
    let mut extensions: Vec<Extension> = Vec::new();
    let mut row: usize = 0;
    let mut slot: usize = 0;
    while row < stops
        invariant
            row <= stops == excluded@.len(),
            seeds@.len() == stops,
            views == points_view(seeds@),
            transfers.wf(stops as nat),
            slot == transfers.offsets@[row as int],
            extensions@ == extensions_over(views, excluded@, *transfers, egress, slot as int),
            forall|k: int|
                0 <= k < extensions@.len() ==> extension_wf(
                    #[trigger] extensions@[k],
                    views,
                    *transfers,
                ),
        decreases stops - row,
    {
        let end: usize = transfers.offsets[row + 1] as usize;
        while slot < end
            invariant
                row < stops == excluded@.len(),
                seeds@.len() == stops,
                views == points_view(seeds@),
                transfers.wf(stops as nat),
                transfers.offsets@[row as int] <= slot <= end,
                end == transfers.offsets@[row + 1],
                extensions@ == extensions_over(views, excluded@, *transfers, egress, slot as int),
                forall|k: int|
                    0 <= k < extensions@.len() ==> extension_wf(
                        #[trigger] extensions@[k],
                        views,
                        *transfers,
                    ),
            decreases end - slot,
        {
            proof {
                assert(transfers.offsets@[row + 1] <= transfers.offsets@.last());
                lemma_row_of(transfers.offsets@, slot as int, 0, row as int);
            }
            let transfer: Transfer = transfers.edges[slot];
            assert(transfers.edges@[slot as int].to < stops);
            let (source, target): (usize, usize) = if egress {
                (transfer.to as usize, row)
            } else {
                (row, transfer.to as usize)
            };
            let ghost before = extensions@;
            if !excluded[target] {
                assert(views[source as int] == seeds@[source as int]@);
                let points = &seeds[source];
                let mut point: usize = 0;
                assert(before + slot_extensions(views, *transfers, egress, slot as int, 0)
                    =~= before);
                while point < points.len()
                    invariant
                        point <= points@.len(),
                        points@ == views[source as int],
                        source < views.len(),
                        target < views.len(),
                        slot < transfers.edges@.len(),
                        transfer == transfers.edges@[slot as int],
                        source == carry_source(*transfers, slot as int, egress),
                        target == carry_target(*transfers, slot as int, egress),
                        extensions@ == before + slot_extensions(
                            views,
                            *transfers,
                            egress,
                            slot as int,
                            point as int,
                        ),
                        forall|k: int|
                            0 <= k < extensions@.len() ==> extension_wf(
                                #[trigger] extensions@[k],
                                views,
                                *transfers,
                            ),
                    decreases points.len() - point,
                {
                    let ghost sofar = extensions@;
                    if points[point].winner.seconds.checked_add(transfer.seconds).is_some() {
                        extensions.push(Extension { source, point, slot, target });
                    }
                    assert(extensions@ =~= before + slot_extensions(
                        views,
                        *transfers,
                        egress,
                        slot as int,
                        point + 1,
                    ));
                    point += 1;
                }
            }
            slot += 1;
        }
        row += 1;
    }
    extensions
}

/// A point carried over a transfer, with its grams summed.
pub open spec fn carried_point(
    seeds: Seq<Seq<ParetoChoice>>,
    transfers: TransferRows,
    rented: Option<Seq<bool>>,
    extension: Extension,
    grams: u64,
) -> ParetoChoice {
    ParetoChoice {
        winner: carried(
            seeds[extension.source as int][extension.point as int].winner,
            transfers.edges@[extension.slot as int],
            extension.source as int,
            bears_rental(rented, extension.slot as int),
        ),
        grams,
        slot: Some(extension.slot),
    }
}

/// What the first `count` extensions carry to a stop.
pub open spec fn carried_points(
    seeds: Seq<Seq<ParetoChoice>>,
    transfers: TransferRows,
    rented: Option<Seq<bool>>,
    extensions: Seq<Extension>,
    grams: Seq<u64>,
    stop: int,
    count: int,
) -> Seq<ParetoChoice>
    decreases count,
{
    if count <= 0 {
        Seq::empty()
    } else {
        let before = carried_points(
            seeds,
            transfers,
            rented,
            extensions,
            grams,
            stop,
            count - 1,
        );
        if extensions[count - 1].target == stop {
            before.push(
                carried_point(
                    seeds,
                    transfers,
                    rented,
                    extensions[count - 1],
                    grams[count - 1],
                ),
            )
        } else {
            before
        }
    }
}

fn copy_points(points: &Vec<ParetoChoice>) -> (copy: Vec<ParetoChoice>)
    ensures
        copy@ == points@,
{
    let mut copy: Vec<ParetoChoice> = Vec::new();
    let mut index: usize = 0;
    while index < points.len()
        invariant
            index <= points@.len(),
            copy@ == points@.subrange(0, index as int),
        decreases points.len() - index,
    {
        copy.push(points[index]);
        index += 1;
        assert(copy@ =~= points@.subrange(0, index as int));
    }
    assert(points@.subrange(0, points@.len() as int) =~= points@);
    copy
}

/// Closes the direct frontiers under one installed transfer: every extension
/// enters its target's frontier with its summed grams.
pub fn pareto_close(
    seeds: &Vec<Vec<ParetoChoice>>,
    transfers: &TransferRows,
    rented: Option<&Vec<bool>>,
    extensions: &Vec<Extension>,
    grams: &Vec<u64>,
) -> (frontiers: Vec<Vec<ParetoChoice>>)
    requires
        seeds@.len() <= u32::MAX,
        transfers.wf(seeds@.len()),
        flags_view(rented) matches Some(flags) ==> flags.len() == transfers.edges@.len(),
        grams@.len() == extensions@.len(),
        forall|k: int|
            0 <= k < extensions@.len() ==> extension_wf(
                #[trigger] extensions@[k],
                points_view(seeds@),
                *transfers,
            ),
        forall|s: int, p: int|
            0 <= s < seeds@.len() && 0 <= p < seeds@[s]@.len() ==> single_rental(
                #[trigger] seeds@[s]@[p],
            ),
    ensures
        frontiers@.len() == seeds@.len(),
        forall|stop: int|
            0 <= stop < seeds@.len() ==> (#[trigger] frontiers@[stop])@ == inserted_all(
                seeds@[stop]@,
                carried_points(
                    points_view(seeds@),
                    *transfers,
                    flags_view(rented),
                    extensions@,
                    grams@,
                    stop,
                    extensions@.len() as int,
                ),
            ),
{
    let ghost views = points_view(seeds@);
    let ghost flags = flags_view(rented);
    let stops: usize = seeds.len();
    let mut frontiers: Vec<Vec<ParetoChoice>> = Vec::new();
    let mut filled: usize = 0;
    while filled < stops
        invariant
            filled <= stops == seeds@.len(),
            frontiers@.len() == filled,
            forall|s: int| 0 <= s < filled ==> (#[trigger] frontiers@[s])@ == seeds@[s]@,
        decreases stops - filled,
    {
        frontiers.push(copy_points(&seeds[filled]));
        filled += 1;
    }
    let mut index: usize = 0;
    while index < extensions.len()
        invariant
            index <= extensions@.len() == grams@.len(),
            stops == seeds@.len(),
            stops <= u32::MAX,
            frontiers@.len() == stops,
            views == points_view(seeds@),
            flags == flags_view(rented),
            flags matches Some(flags) ==> flags.len() == transfers.edges@.len(),
            forall|k: int|
                0 <= k < extensions@.len() ==> extension_wf(
                    #[trigger] extensions@[k],
                    views,
                    *transfers,
                ),
            forall|s: int, p: int|
                0 <= s < seeds@.len() && 0 <= p < seeds@[s]@.len() ==> single_rental(
                    #[trigger] seeds@[s]@[p],
                ),
            forall|s: int|
                0 <= s < stops ==> (#[trigger] frontiers@[s])@ == inserted_all(
                    seeds@[s]@,
                    carried_points(
                        views,
                        *transfers,
                        flags,
                        extensions@,
                        grams@,
                        s,
                        index as int,
                    ),
                ),
        decreases extensions.len() - index,
    {
        let extension: Extension = extensions[index];
        assert(extension_wf(extensions@[index as int], views, *transfers));
        assert(views[extension.source as int] == seeds@[extension.source as int]@);
        let seed: ParetoChoice = seeds[extension.source][extension.point];
        assert(single_rental(seeds@[extension.source as int]@[extension.point as int]));
        let transfer: Transfer = transfers.edges[extension.slot];
        let rented_edge: bool = match rented {
            Some(flags) => flags[extension.slot],
            None => false,
        };
        let point = ParetoChoice {
            winner: Winner {
                seconds: seed.winner.seconds + transfer.seconds,
                rentals: seed.winner.rentals + if rented_edge {
                    1
                } else {
                    0
                },
                transfer_rental: seed.winner.transfer_rental || rented_edge,
                via: Some(extension.source as u32),
                walk_transfer_m: transfer.meters,
                ..seed.winner
            },
            grams: grams[index],
            slot: Some(extension.slot),
        };
        assert(point == carried_point(views, *transfers, flags, extension, grams@[index as int]));
        let ghost before = frontiers@;
        pareto_insert(&mut frontiers[extension.target], point);
        proof {
            assert forall|s: int| 0 <= s < stops implies (#[trigger] frontiers@[s])@
                == inserted_all(
                seeds@[s]@,
                carried_points(views, *transfers, flags, extensions@, grams@, s, index + 1),
            ) by {
                let earlier = carried_points(
                    views,
                    *transfers,
                    flags,
                    extensions@,
                    grams@,
                    s,
                    index as int,
                );
                assert(before[s]@ == inserted_all(seeds@[s]@, earlier));
                if s == extension.target {
                    lemma_insert_push(seeds@[s]@, earlier, point);
                }
            }
        }
        index += 1;
    }
    frontiers
}

/// Points with one more point put in its place by seconds.
pub open spec fn placed(points: Seq<ParetoChoice>, point: ParetoChoice) -> Seq<ParetoChoice>
    decreases points.len(),
{
    if points.len() == 0 || points.last().winner.seconds <= point.winner.seconds {
        points.push(point)
    } else {
        placed(points.drop_last(), point).push(points.last())
    }
}

/// Points in order of their seconds.
pub open spec fn sorted_points(points: Seq<ParetoChoice>) -> Seq<ParetoChoice>
    decreases points.len(),
{
    if points.len() == 0 {
        Seq::empty()
    } else {
        placed(sorted_points(points.drop_last()), points.last())
    }
}

pub open spec fn in_order(points: Seq<ParetoChoice>) -> bool {
    forall|i: int, j: int|
        0 <= i < j < points.len() ==> (#[trigger] points[i]).winner.seconds <= (
        #[trigger] points[j]).winner.seconds
}

proof fn lemma_placed(points: Seq<ParetoChoice>, point: ParetoChoice)
    requires
        in_order(points),
    ensures
        in_order(placed(points, point)),
        placed(points, point).len() == points.len() + 1,
        placed(points, point).to_multiset() == points.to_multiset().insert(point),
        forall|i: int|
            0 <= i < placed(points, point).len() ==> (#[trigger] placed(points, point)[i]) == point
                || points.contains(placed(points, point)[i]),
    decreases points.len(),
{
    broadcast use vstd::seq_lib::group_to_multiset_ensures;

    if points.len() == 0 || points.last().winner.seconds <= point.winner.seconds {
        let after = points.push(point);
        assert forall|i: int| 0 <= i < after.len() implies #[trigger] after[i] == point
            || points.contains(after[i]) by {
            if i < points.len() {
                assert(points[i] == after[i]);
            }
        }
    } else {
        let before = points.drop_last();
        lemma_placed(before, point);
        let part = placed(before, point);
        let after = part.push(points.last());
        assert(before.push(points.last()) =~= points);
        assert forall|i: int| 0 <= i < part.len() implies (#[trigger] part[i]).winner.seconds
            <= points.last().winner.seconds by {
            if part[i] != point {
                let at = choose|at: int| 0 <= at < before.len() && before[at] == part[i];
                assert(points[at].winner.seconds <= points[points.len() - 1].winner.seconds);
            }
        }
        assert forall|i: int| 0 <= i < after.len() implies #[trigger] after[i] == point
            || points.contains(after[i]) by {
            if i < part.len() {
                if part[i] != point {
                    let at = choose|at: int| 0 <= at < before.len() && before[at] == part[i];
                    assert(points[at] == after[i]);
                }
            } else {
                assert(points[points.len() - 1] == after[i]);
            }
        }
        assert(before.to_multiset().insert(point).insert(points.last()) =~= before.to_multiset().insert(
            points.last(),
        ).insert(point));
    }
}

/// Sorting keeps the points and puts them in order of their seconds.
pub proof fn law_sorted_points(points: Seq<ParetoChoice>)
    ensures
        in_order(sorted_points(points)),
        sorted_points(points).to_multiset() == points.to_multiset(),
        sorted_points(points).len() == points.len(),
    decreases points.len(),
{
    broadcast use vstd::seq_lib::group_to_multiset_ensures;

    if points.len() > 0 {
        let before = points.drop_last();
        law_sorted_points(before);
        lemma_placed(sorted_points(before), points.last());
        assert(before.push(points.last()) =~= points);
    } else {
        assert(points =~= Seq::empty());
    }
}

/// Whether no two points have the same seconds.
pub open spec fn seconds_differ(points: Seq<ParetoChoice>) -> bool {
    forall|i: int, j: int|
        0 <= i < points.len() && 0 <= j < points.len() && i != j ==> (
        #[trigger] points[i]).winner.seconds != (#[trigger] points[j]).winner.seconds
}

/// Points in order are determined by which points they are.
proof fn lemma_order_is_unique(left: Seq<ParetoChoice>, right: Seq<ParetoChoice>)
    requires
        in_order(left),
        in_order(right),
        seconds_differ(left),
        seconds_differ(right),
        left.to_multiset() == right.to_multiset(),
    ensures
        left == right,
    decreases left.len(),
{
    left.to_multiset_ensures();
    right.to_multiset_ensures();
    if left.len() == 0 {
        assert(left =~= right);
    } else {
        let end = left.len() - 1;
        assert(left.contains(left[end]) && right.contains(right[end]));
        assert(left.to_multiset().count(right[end]) > 0);
        assert(right.to_multiset().count(left[end]) > 0);
        let i = choose|i: int| 0 <= i < left.len() && left[i] == right[end];
        let j = choose|j: int| 0 <= j < right.len() && right[j] == left[end];
        assert(left[i].winner.seconds <= left[end].winner.seconds);
        assert(right[j].winner.seconds <= right[end].winner.seconds);
        assert(j == end);
        assert(left.remove(end) =~= left.drop_last());
        assert(right.remove(end) =~= right.drop_last());
        lemma_order_is_unique(left.drop_last(), right.drop_last());
        assert(left =~= left.drop_last().push(left[end]));
        assert(right =~= right.drop_last().push(right[end]));
    }
}

proof fn lemma_sorted_seconds_differ(points: Seq<ParetoChoice>)
    requires
        seconds_differ(points),
    ensures
        seconds_differ(sorted_points(points)),
{
    law_sorted_points(points);
    let sorted = sorted_points(points);
    points.to_multiset_ensures();
    sorted.to_multiset_ensures();
    assert(points.no_duplicates());
    points.lemma_multiset_has_no_duplicates();
    sorted.lemma_multiset_has_no_duplicates_conv();
    assert forall|i: int, j: int|
        0 <= i < sorted.len() && 0 <= j < sorted.len() && i != j implies (
    #[trigger] sorted[i]).winner.seconds != (#[trigger] sorted[j]).winner.seconds by {
        assert(sorted.contains(sorted[i]) && sorted.contains(sorted[j]));
        assert(points.to_multiset().count(sorted[i]) > 0);
        assert(points.to_multiset().count(sorted[j]) > 0);
        let p = choose|p: int| 0 <= p < points.len() && points[p] == sorted[i];
        let q = choose|q: int| 0 <= q < points.len() && points[q] == sorted[j];
        assert(p != q);
    }
}

/// The same candidates give the same rows, in whatever order they were
/// inserted.
pub proof fn law_rows_ignore_order(left: Seq<ParetoChoice>, right: Seq<ParetoChoice>)
    requires
        forall|point: ParetoChoice| left.contains(point) <==> right.contains(point),
    ensures
        sorted_points(frontier_of(left)) == sorted_points(frontier_of(right)),
{
    law_frontier_ignores_order(left, right);
    lemma_frontier_seconds_differ(left);
    lemma_frontier_seconds_differ(right);
    lemma_sorted_seconds_differ(frontier_of(left));
    lemma_sorted_seconds_differ(frontier_of(right));
    law_sorted_points(frontier_of(left));
    law_sorted_points(frontier_of(right));
    lemma_order_is_unique(sorted_points(frontier_of(left)), sorted_points(frontier_of(right)));
}

proof fn lemma_frontier_seconds_differ(candidates: Seq<ParetoChoice>)
    ensures
        seconds_differ(frontier_of(candidates)),
{
    let frontier = frontier_of(candidates);
    law_frontier(candidates);
    assert forall|i: int, j: int|
        0 <= i < frontier.len() && 0 <= j < frontier.len() && i != j implies (
    #[trigger] frontier[i]).winner.seconds != (#[trigger] frontier[j]).winner.seconds by {
        law_frontier_seconds_differ(frontier, candidates, i, j);
    }
}

fn sort_points(points: &Vec<ParetoChoice>) -> (sorted: Vec<ParetoChoice>)
    ensures
        sorted@ == sorted_points(points@),
{
    let mut sorted: Vec<ParetoChoice> = Vec::new();
    let mut index: usize = 0;
    while index < points.len()
        invariant
            index <= points@.len(),
            sorted@ == sorted_points(points@.subrange(0, index as int)),
        decreases points.len() - index,
    {
        let point: ParetoChoice = points[index];
        let ghost start = sorted@;
        let mut at: usize = sorted.len();
        proof {
            let upto = points@.subrange(0, index + 1);
            assert(upto.drop_last() =~= points@.subrange(0, index as int));
            assert(start.subrange(0, start.len() as int) =~= start);
            assert(placed(start, point) + Seq::<ParetoChoice>::empty() =~= placed(start, point));
            assert(start.subrange(start.len() as int, start.len() as int) =~= Seq::empty());
        }
        while at > 0 && sorted[at - 1].winner.seconds > point.winner.seconds
            invariant
                at <= sorted@.len(),
                sorted@ == start,
                placed(start, point) == placed(start.subrange(0, at as int), point)
                    + start.subrange(at as int, start.len() as int),
            decreases at,
        {
            proof {
                let head = start.subrange(0, at as int);
                assert(head.drop_last() =~= start.subrange(0, at - 1));
                assert(placed(head, point) + start.subrange(at as int, start.len() as int)
                    =~= placed(start.subrange(0, at - 1), point) + start.subrange(
                    at - 1,
                    start.len() as int,
                ));
            }
            at -= 1;
        }
        sorted.insert(at, point);
        proof {
            let head = start.subrange(0, at as int);
            assert(placed(head, point) == head.push(point));
            assert(sorted@ =~= head.push(point) + start.subrange(at as int, start.len() as int));
        }
        index += 1;
    }
    assert(points@.subrange(0, points@.len() as int) =~= points@);
    sorted
}

/// The flat rows of the first `stops` frontiers: by stop, then by seconds.
pub open spec fn flat_rows(frontiers: Seq<Seq<ParetoChoice>>, stops: int) -> Seq<
    (u32, ParetoChoice),
>
    decreases stops,
{
    if stops <= 0 {
        Seq::empty()
    } else {
        flat_rows(frontiers, stops - 1) + sorted_points(frontiers[stops - 1]).map_values(
            |point: ParetoChoice| ((stops - 1) as u32, point),
        )
    }
}

/// The reduction's rows: per stop its frontier in order of seconds.
pub fn pareto_street_rows(frontiers: &Vec<Vec<ParetoChoice>>) -> (rows: Vec<(u32, ParetoChoice)>)
    requires
        frontiers@.len() <= u32::MAX,
    ensures
        rows@ == flat_rows(points_view(frontiers@), frontiers@.len() as int),
{
    let ghost views = points_view(frontiers@);
    let mut rows: Vec<(u32, ParetoChoice)> = Vec::new();
    let mut stop: usize = 0;
    while stop < frontiers.len()
        invariant
            stop <= frontiers@.len() <= u32::MAX,
            views == points_view(frontiers@),
            rows@ == flat_rows(views, stop as int),
        decreases frontiers.len() - stop,
    {
        let sorted = sort_points(&frontiers[stop]);
        assert(views[stop as int] == frontiers@[stop as int]@);
        let ghost before = rows@;
        let ghost added = sorted@.map_values(|point: ParetoChoice| (stop as u32, point));
        let mut index: usize = 0;
        assert(before + added.subrange(0, 0) =~= before);
        while index < sorted.len()
            invariant
                index <= sorted@.len(),
                stop <= u32::MAX,
                added == sorted@.map_values(|point: ParetoChoice| (stop as u32, point)),
                rows@ == before + added.subrange(0, index as int),
            decreases sorted.len() - index,
        {
            rows.push((stop as u32, sorted[index]));
            index += 1;
            assert(rows@ =~= before + added.subrange(0, index as int));
        }
        proof {
            assert(added.subrange(0, added.len() as int) =~= added);
            assert(added =~= sorted_points(views[stop as int]).map_values(
                |point: ParetoChoice| ((stop + 1 - 1) as u32, point),
            ));
        }
        stop += 1;
    }
    rows
}

/// Whether a point is a mode's own at a stop: its cell's seconds and meters,
/// its link, and the grams its row holds for that very stop, or none where it
/// walks or rides no meters.
pub open spec fn own_point(row: GramRow, mode: int, stop: int, point: ParetoChoice) -> bool {
    &&& serves(row.row, stop)
    &&& row.row.cells@[stop] == Some(
        StreetCell {
            seconds: point.winner.seconds,
            network_m: point.winner.network_m,
            total_m: point.winner.total_m,
        },
    )
    &&& row.row.links@[stop] == Some(point.winner.snap)
    &&& point.winner.order == mode
    &&& point.winner.rentals == 1 <==> row.row.rental
    &&& point.winner.via is None
    &&& point.slot is None
    &&& row.walk ==> point.grams == 0
    &&& !row.walk && !f64_is_nan(point.winner.network_m) && f64_rank(point.winner.network_m) <= 0
        ==> point.grams == 0
    &&& !row.walk && (f64_is_nan(point.winner.network_m) || f64_rank(point.winner.network_m) > 0)
        ==> point.grams == row.grams@[stop]
}

proof fn lemma_direct_point(row: GramRow, mode: int, stop: int)
    requires
        0 <= mode <= usize::MAX,
    ensures
        direct_point(row, mode, stop) is Some <==> serves(row.row, stop),
        direct_point(row, mode, stop) matches Some(point) ==> own_point(row, mode, stop, point),
{
    law_direct_choices_are_the_cells(row.row, mode, stop);
}

proof fn lemma_listed_points(rows: Seq<Option<GramRow>>, stop: int, count: int)
    requires
        0 <= count <= rows.len() <= usize::MAX,
    ensures
        forall|i: int|
            0 <= i < direct_points(rows, stop, count).len() ==> {
                let point = #[trigger] direct_points(rows, stop, count)[i];
                &&& point.winner.order < count
                &&& rows[point.winner.order as int] is Some
                &&& own_point(
                    rows[point.winner.order as int]->0,
                    point.winner.order as int,
                    stop,
                    point,
                )
            },
        forall|mode: int|
            0 <= mode < count && (#[trigger] rows[mode]) is Some && serves(rows[mode]->0.row, stop)
                ==> direct_points(rows, stop, count).contains(
                direct_point(rows[mode]->0, mode, stop)->0,
            ),
    decreases count,
{
    if count > 0 {
        lemma_listed_points(rows, stop, count - 1);
        let before = direct_points(rows, stop, count - 1);
        let all = direct_points(rows, stop, count);
        if let Some(row) = rows[count - 1] {
            lemma_direct_point(row, count - 1, stop);
        }
        assert forall|i: int| 0 <= i < all.len() implies {
            let point = #[trigger] all[i];
            &&& point.winner.order < count
            &&& rows[point.winner.order as int] is Some
            &&& own_point(
                rows[point.winner.order as int]->0,
                point.winner.order as int,
                stop,
                point,
            )
        } by {
            if i < before.len() {
                assert(all[i] == before[i]);
            }
        }
        assert forall|mode: int|
            0 <= mode < count && (#[trigger] rows[mode]) is Some && serves(
                rows[mode]->0.row,
                stop,
            ) implies all.contains(direct_point(rows[mode]->0, mode, stop)->0) by {
            let point = direct_point(rows[mode]->0, mode, stop)->0;
            if mode < count - 1 {
                assert(before.contains(point));
                let at = choose|at: int| 0 <= at < before.len() && before[at] == point;
                assert(all[at] == point);
            } else {
                assert(all[all.len() - 1] == point);
            }
        }
    }
}

/// Every point of a stop's direct frontier is some mode's own there, with the
/// grams that the mode's row holds for that same stop. An excluded stop has
/// none.
pub proof fn law_direct_frontiers_hold_own_points(
    rows: Seq<Option<GramRow>>,
    excluded: Seq<bool>,
    stop: int,
    at: int,
)
    requires
        rows.len() <= usize::MAX,
        0 <= at < direct_frontier(rows, excluded, stop).len(),
    ensures
        ({
            let point = direct_frontier(rows, excluded, stop)[at];
            &&& !excluded[stop]
            &&& point.winner.order < rows.len()
            &&& rows[point.winner.order as int] matches Some(row) && own_point(
                row,
                point.winner.order as int,
                stop,
                point,
            )
        }),
{
    let points = direct_points(rows, stop, rows.len() as int);
    lemma_listed_points(rows, stop, rows.len() as int);
    law_frontier(points);
    let point = direct_frontier(rows, excluded, stop)[at];
    assert(points.contains(point));
    let k = choose|k: int| 0 <= k < points.len() && points[k] == point;
    assert(points[k] == point);
}

/// Wherever a mode serves a stop that the query admits, some point of the
/// stop's direct frontier is no slower and no dirtier than the mode's own.
pub proof fn law_direct_frontiers_match_every_mode(
    rows: Seq<Option<GramRow>>,
    excluded: Seq<bool>,
    stop: int,
    mode: int,
    point: ParetoChoice,
)
    requires
        0 <= mode < rows.len() <= usize::MAX,
        !excluded[stop],
        rows[mode] matches Some(row) && own_point(row, mode, stop, point),
    ensures
        matched(direct_frontier(rows, excluded, stop), point),
{
    let points = direct_points(rows, stop, rows.len() as int);
    lemma_listed_points(rows, stop, rows.len() as int);
    let row = rows[mode]->0;
    lemma_direct_point(row, mode, stop);
    let own = direct_point(row, mode, stop)->0;
    assert(points.contains(own));
    let k = choose|k: int| 0 <= k < points.len() && points[k] == own;
    law_frontier_matches_every_candidate(points, k);
    let frontier = direct_frontier(rows, excluded, stop);
    let i = choose|i: int| 0 <= i < frontier.len() && no_worse_than(#[trigger] frontier[i], own);
    assert(no_worse_than(frontier[i], point));
}

/// A single mode's frontier at a stop it serves is one point: its own.
pub proof fn law_a_single_mode_has_its_own_point(row: GramRow, excluded: Seq<bool>, stop: int)
    requires
        !excluded[stop],
    ensures
        serves(row.row, stop) ==> direct_frontier(seq![Some(row)], excluded, stop).len() == 1
            && own_point(row, 0, stop, direct_frontier(seq![Some(row)], excluded, stop)[0]),
        !serves(row.row, stop) ==> direct_frontier(seq![Some(row)], excluded, stop).len() == 0,
{
    let rows = seq![Some(row)];
    lemma_direct_point(row, 0, stop);
    reveal_with_fuel(direct_points, 2);
    let points = direct_points(rows, stop, 1);
    law_frontier(points);
    let frontier = direct_frontier(rows, excluded, stop);
    if serves(row.row, stop) {
        let own = direct_point(row, 0, stop)->0;
        assert(points =~= seq![own]);
        law_frontier_matches_every_candidate(points, 0);
        assert forall|i: int| 0 <= i < frontier.len() implies #[trigger] frontier[i] == own by {
            assert(points.contains(frontier[i]));
        }
        if frontier.len() > 1 {
            law_frontier_trades_time_for_grams(points, 0, 1);
            assert(frontier[0] == frontier[1]);
        }
    } else {
        assert(points =~= Seq::empty());
        if frontier.len() > 0 {
            assert(points.contains(frontier[0]));
        }
    }
}

/// Whether two policies' rows say the same of a stop.
pub open spec fn same_at(left: Option<GramRow>, right: Option<GramRow>, stop: int) -> bool {
    match (left, right) {
        (Some(left), Some(right)) => {
            &&& left.walk == right.walk
            &&& left.grams@[stop] == right.grams@[stop]
            &&& left.row.rental == right.row.rental
            &&& left.row.cells@[stop] == right.row.cells@[stop]
            &&& left.row.links@[stop] == right.row.links@[stop]
            &&& (left.row.eligible matches Some(mask) ==> mask@[stop]) == (
            right.row.eligible matches Some(mask) ==> mask@[stop])
        },
        (None, None) => true,
        _ => false,
    }
}

/// A stop's direct frontier depends on what the rows say of that stop alone:
/// rows that agree there leave the same frontier, whatever they say of others.
pub proof fn law_direct_frontiers_are_local(
    left: Seq<Option<GramRow>>,
    right: Seq<Option<GramRow>>,
    excluded: Seq<bool>,
    stop: int,
)
    requires
        left.len() == right.len(),
        forall|mode: int|
            0 <= mode < left.len() ==> same_at(#[trigger] left[mode], right[mode], stop),
    ensures
        direct_frontier(left, excluded, stop) == direct_frontier(right, excluded, stop),
{
    lemma_points_are_local(left, right, stop, left.len() as int);
}

proof fn lemma_points_are_local(
    left: Seq<Option<GramRow>>,
    right: Seq<Option<GramRow>>,
    stop: int,
    count: int,
)
    requires
        0 <= count <= left.len() == right.len(),
        forall|mode: int|
            0 <= mode < left.len() ==> same_at(#[trigger] left[mode], right[mode], stop),
    ensures
        direct_points(left, stop, count) == direct_points(right, stop, count),
    decreases count,
{
    if count > 0 {
        lemma_points_are_local(left, right, stop, count - 1);
        assert(same_at(left[count - 1], right[count - 1], stop));
    }
}

/// Frontiers are extended over each transfer into a stop that the query
/// admits, along it for access and against it for egress: by every point of
/// the stop it is walked from, as long as the clock can hold the sum.
pub proof fn law_extensions_cover_the_transfers(
    seeds: Seq<Seq<ParetoChoice>>,
    excluded: Seq<bool>,
    transfers: TransferRows,
    egress: bool,
    departing: int,
    slot: int,
    point: int,
)
    requires
        seeds.len() == excluded.len(),
        transfers.wf(excluded.len()),
        0 <= departing < excluded.len() <= u32::MAX,
        transfers.offsets@[departing] <= slot < transfers.offsets@[departing + 1],
        ({
            let other = transfers.edges@[slot].to as int;
            let (start, end) = if egress {
                (other, departing)
            } else {
                (departing, other)
            };
            &&& !excluded[end]
            &&& 0 <= point < seeds[start].len() <= usize::MAX
            &&& seeds[start][point].winner.seconds + transfers.edges@[slot].seconds <= u32::MAX
        }),
    ensures
        ({
            let other = transfers.edges@[slot].to as int;
            let (start, end) = if egress {
                (other, departing)
            } else {
                (departing, other)
            };
            extensions_over(
                seeds,
                excluded,
                transfers,
                egress,
                transfers.edges@.len() as int,
            ).contains(
                Extension {
                    source: start as usize,
                    point: point as usize,
                    slot: slot as usize,
                    target: end as usize,
                },
            )
        }),
{
    assert(transfers.offsets@[departing + 1] <= transfers.offsets@.last());
    lemma_row_of(transfers.offsets@, slot, 0, departing);
    let source = carry_source(transfers, slot, egress);
    lemma_slot_extended(seeds, transfers, egress, slot, point, seeds[source].len() as int);
    lemma_extension_listed(
        seeds,
        excluded,
        transfers,
        egress,
        slot,
        point,
        transfers.edges@.len() as int,
    );
}

proof fn lemma_slot_extended(
    seeds: Seq<Seq<ParetoChoice>>,
    transfers: TransferRows,
    egress: bool,
    slot: int,
    point: int,
    points: int,
)
    requires
        0 <= point < points,
        seeds[carry_source(transfers, slot, egress)][point].winner.seconds
            + transfers.edges@[slot].seconds <= u32::MAX,
    ensures
        slot_extensions(seeds, transfers, egress, slot, points).contains(
            Extension {
                source: carry_source(transfers, slot, egress) as usize,
                point: point as usize,
                slot: slot as usize,
                target: carry_target(transfers, slot, egress) as usize,
            },
        ),
    decreases points,
{
    let extension = Extension {
        source: carry_source(transfers, slot, egress) as usize,
        point: point as usize,
        slot: slot as usize,
        target: carry_target(transfers, slot, egress) as usize,
    };
    let before = slot_extensions(seeds, transfers, egress, slot, points - 1);
    let all = slot_extensions(seeds, transfers, egress, slot, points);
    if point < points - 1 {
        lemma_slot_extended(seeds, transfers, egress, slot, point, points - 1);
        let at = choose|at: int| 0 <= at < before.len() && before[at] == extension;
        assert(all[at] == extension);
    } else {
        assert(all[all.len() - 1] == extension);
    }
}

proof fn lemma_extension_listed(
    seeds: Seq<Seq<ParetoChoice>>,
    excluded: Seq<bool>,
    transfers: TransferRows,
    egress: bool,
    slot: int,
    point: int,
    slots: int,
)
    requires
        0 <= slot < slots,
        !excluded[carry_target(transfers, slot, egress)],
        0 <= point < seeds[carry_source(transfers, slot, egress)].len(),
        seeds[carry_source(transfers, slot, egress)][point].winner.seconds
            + transfers.edges@[slot].seconds <= u32::MAX,
    ensures
        extensions_over(seeds, excluded, transfers, egress, slots).contains(
            Extension {
                source: carry_source(transfers, slot, egress) as usize,
                point: point as usize,
                slot: slot as usize,
                target: carry_target(transfers, slot, egress) as usize,
            },
        ),
    decreases slots,
{
    let extension = Extension {
        source: carry_source(transfers, slot, egress) as usize,
        point: point as usize,
        slot: slot as usize,
        target: carry_target(transfers, slot, egress) as usize,
    };
    let before = extensions_over(seeds, excluded, transfers, egress, slots - 1);
    let all = extensions_over(seeds, excluded, transfers, egress, slots);
    if slot < slots - 1 {
        lemma_extension_listed(seeds, excluded, transfers, egress, slot, point, slots - 1);
        let at = choose|at: int| 0 <= at < before.len() && before[at] == extension;
        assert(all[at] == extension);
    } else {
        let points = seeds[carry_source(transfers, slot, egress)].len() as int;
        lemma_slot_extended(seeds, transfers, egress, slot, point, points);
        let more = slot_extensions(seeds, transfers, egress, slot, points);
        let at = choose|at: int| 0 <= at < more.len() && more[at] == extension;
        assert(all[before.len() + at] == extension);
    }
}

/// An extended point takes the transfer's seconds more and the summed grams
/// handed in for it, names the stop it came from and the transfer's meters,
/// and keeps the rest of its seed; a transfer that bears a rental adds one.
pub proof fn law_extended_points_add_the_transfer(
    seeds: Seq<Seq<ParetoChoice>>,
    transfers: TransferRows,
    rented: Option<Seq<bool>>,
    extension: Extension,
    grams: u64,
)
    requires
        extension_wf(extension, seeds, transfers),
        extension.source <= u32::MAX,
        seeds[extension.source as int][extension.point as int].winner.rentals < u8::MAX,
    ensures
        ({
            let seed = seeds[extension.source as int][extension.point as int].winner;
            let edge = transfers.edges@[extension.slot as int];
            let over = carried_point(seeds, transfers, rented, extension, grams);
            let paid = rented is Some && rented->0[extension.slot as int];
            &&& over.grams == grams
            &&& over.slot == Some(extension.slot)
            &&& over.winner.seconds - seed.seconds == edge.seconds
            &&& over.winner.walk_transfer_m == edge.meters
            &&& over.winner.via == Some(extension.source as u32)
            &&& paid ==> over.winner.rentals == seed.rentals + 1 && over.winner.transfer_rental
            &&& !paid ==> over.winner.rentals == seed.rentals && over.winner.transfer_rental
                == seed.transfer_rental
            &&& over.winner.order == seed.order
            &&& over.winner.snap == seed.snap
            &&& over.winner.network_m == seed.network_m
            &&& over.winner.total_m == seed.total_m
        }),
{
}

/// What is carried to a stop is what its extensions carry, each with its own
/// grams, and what others carry goes elsewhere.
pub proof fn law_extensions_go_to_their_targets(
    seeds: Seq<Seq<ParetoChoice>>,
    transfers: TransferRows,
    rented: Option<Seq<bool>>,
    extensions: Seq<Extension>,
    grams: Seq<u64>,
    stop: int,
    count: int,
)
    requires
        0 <= count <= extensions.len() == grams.len(),
    ensures
        ({
            let points = carried_points(
                seeds,
                transfers,
                rented,
                extensions,
                grams,
                stop,
                count,
            );
            &&& forall|k: int|
                0 <= k < count && (#[trigger] extensions[k]).target == stop ==> points.contains(
                    carried_point(seeds, transfers, rented, extensions[k], grams[k]),
                )
            &&& forall|p: int|
                0 <= p < points.len() ==> carried_by_one(
                    seeds,
                    transfers,
                    rented,
                    extensions,
                    grams,
                    stop,
                    #[trigger] points[p],
                )
        }),
    decreases count,
{
    if count > 0 {
        law_extensions_go_to_their_targets(
            seeds,
            transfers,
            rented,
            extensions,
            grams,
            stop,
            count - 1,
        );
        let before = carried_points(
            seeds,
            transfers,
            rented,
            extensions,
            grams,
            stop,
            count - 1,
        );
        let points = carried_points(seeds, transfers, rented, extensions, grams, stop, count);
        assert forall|k: int|
            0 <= k < count && (#[trigger] extensions[k]).target == stop implies points.contains(
            carried_point(seeds, transfers, rented, extensions[k], grams[k]),
        ) by {
            let point = carried_point(seeds, transfers, rented, extensions[k], grams[k]);
            if k < count - 1 {
                assert(before.contains(point));
                let at = choose|at: int| 0 <= at < before.len() && before[at] == point;
                assert(points[at] == point);
            } else {
                assert(points[points.len() - 1] == point);
            }
        }
        assert forall|p: int| 0 <= p < points.len() implies carried_by_one(
            seeds,
            transfers,
            rented,
            extensions,
            grams,
            stop,
            #[trigger] points[p],
        ) by {
            if p < before.len() {
                assert(points[p] == before[p]);
            } else {
                assert(extensions[count - 1].target == stop);
            }
        }
    }
}

/// Whether one of the extensions to a stop carries a point.
pub open spec fn carried_by_one(
    seeds: Seq<Seq<ParetoChoice>>,
    transfers: TransferRows,
    rented: Option<Seq<bool>>,
    extensions: Seq<Extension>,
    grams: Seq<u64>,
    stop: int,
    point: ParetoChoice,
) -> bool {
    exists|k: int|
        0 <= k < extensions.len() && (#[trigger] extensions[k]).target == stop && point
            == carried_point(seeds, transfers, rented, extensions[k], grams[k])
}

/// The flat rows hold every point of every stop's frontier beside its stop,
/// and nothing else: by stop, and within a stop by seconds.
pub proof fn law_flat_rows_are_the_frontiers(frontiers: Seq<Seq<ParetoChoice>>, stops: int)
    requires
        0 <= stops <= frontiers.len() <= u32::MAX,
    ensures
        ({
            let rows = flat_rows(frontiers, stops);
            &&& forall|s: int, p: int|
                0 <= s < stops && 0 <= p < frontiers[s].len() ==> rows.contains(
                    (s as u32, #[trigger] frontiers[s][p]),
                )
            &&& forall|i: int|
                0 <= i < rows.len() ==> (#[trigger] rows[i]).0 < stops && frontiers[rows[i].0 as int].contains(
                    rows[i].1,
                )
            &&& forall|i: int, j: int|
                0 <= i < j < rows.len() ==> {
                    &&& (#[trigger] rows[i]).0 <= (#[trigger] rows[j]).0
                    &&& rows[i].0 == rows[j].0 ==> rows[i].1.winner.seconds
                        <= rows[j].1.winner.seconds
                }
        }),
    decreases stops,
{
    if stops > 0 {
        law_flat_rows_are_the_frontiers(frontiers, stops - 1);
        let before = flat_rows(frontiers, stops - 1);
        let rows = flat_rows(frontiers, stops);
        let points = frontiers[stops - 1];
        let sorted = sorted_points(points);
        law_sorted_points(points);
        points.to_multiset_ensures();
        sorted.to_multiset_ensures();
        assert forall|s: int, p: int|
            0 <= s < stops && 0 <= p < frontiers[s].len() implies rows.contains(
            (s as u32, #[trigger] frontiers[s][p]),
        ) by {
            let row = (s as u32, frontiers[s][p]);
            if s < stops - 1 {
                assert(before.contains(row));
                let at = choose|at: int| 0 <= at < before.len() && before[at] == row;
                assert(rows[at] == row);
            } else {
                assert(points.contains(points[p]));
                assert(sorted.to_multiset().count(points[p]) > 0);
                assert(sorted.contains(points[p]));
                let at = choose|at: int| 0 <= at < sorted.len() && sorted[at] == points[p];
                assert(rows[before.len() + at] == row);
            }
        }
        assert forall|i: int| before.len() <= i < rows.len() implies (#[trigger] rows[i]).0
            == stops - 1 && rows[i].1 == sorted[i - before.len()] && points.contains(
            rows[i].1,
        ) by {
            assert(sorted.contains(sorted[i - before.len()]));
            assert(points.to_multiset().count(sorted[i - before.len()]) > 0);
        }
        assert forall|i: int| 0 <= i < rows.len() implies (#[trigger] rows[i]).0 < stops
            && frontiers[rows[i].0 as int].contains(rows[i].1) by {
            if i < before.len() {
                assert(rows[i] == before[i]);
            }
        }
        assert forall|i: int, j: int| 0 <= i < j < rows.len() implies {
            &&& (#[trigger] rows[i]).0 <= (#[trigger] rows[j]).0
            &&& rows[i].0 == rows[j].0 ==> rows[i].1.winner.seconds <= rows[j].1.winner.seconds
        } by {
            if j < before.len() {
                assert(rows[i] == before[i] && rows[j] == before[j]);
            } else if i < before.len() {
                assert(rows[i] == before[i]);
                assert(before[i].0 < stops - 1);
            } else {
                assert(sorted[i - before.len()].winner.seconds
                    <= sorted[j - before.len()].winner.seconds);
            }
        }
    }
}

/// Frontiers come about exactly where some mode has a row.
pub proof fn law_frontiers_need_a_row(rows: Seq<Option<GramRow>>, at: int)
    ensures
        0 <= at < rows.len() && rows[at] is Some ==> any_gram_row(rows),
        (forall|i: int| 0 <= i < rows.len() ==> #[trigger] rows[i] is None) ==> !any_gram_row(
            rows,
        ),
{
}

/// Frontiers are viewed stop by stop, choice by choice.
pub proof fn law_frontier_views_keep_their_choices(
    frontiers: Seq<Vec<ParetoChoice>>,
    stop: int,
    at: int,
)
    requires
        0 <= stop < frontiers.len(),
        0 <= at < frontiers[stop]@.len(),
    ensures
        points_view(frontiers).len() == frontiers.len(),
        points_view(frontiers)[stop].len() == frontiers[stop]@.len(),
        points_view(frontiers)[stop][at] == frontiers[stop]@[at],
{
}

} // verus!
