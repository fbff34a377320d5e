//! What joins the two street reductions: neither depends on tracked meters,
//! and where nothing emits grams the frontiers are the time-only winners.

use crate::pareto::{
    frontier_of, grams_key, inserted_all, law_equal_grams_leave_the_fastest, law_frontier,
    outranks, slot_rank, ties_in_order, winners, ParetoChoice,
};
use crate::pareto_rows::{
    carried_point, carried_points, direct_frontier, direct_point, direct_points, extensions_over,
    flat_rows, gram_row_wf, placed, slot_extensions, sorted_points, Extension, GramRow,
};
use crate::reduction::{
    beats, bears_rental, carried, carried_choices, carry_source, carry_target, direct_choice,
    direct_choices, elect, lemma_source_in_range, reduced, row_wf, seed, seeds_of, ModeRow,
    StreetCell, TransferRows, Winner,
};
use crate::street_legs::{kept_upto, RideToken};
use vstd::prelude::*;

verus! {

/// A choice without its meters, as a times-only search reports it.
pub open spec fn unmetered(winner: Winner) -> Winner {
    Winner { network_m: 0, total_m: 0, ..winner }
}

pub open spec fn unmetered_option(winner: Option<Winner>) -> Option<Winner> {
    match winner {
        Some(winner) => Some(unmetered(winner)),
        None => None,
    }
}

/// Whether two cells agree on what they reach and when.
pub open spec fn same_time(left: Option<StreetCell>, right: Option<StreetCell>) -> bool {
    match (left, right) {
        (Some(left), Some(right)) => left.seconds == right.seconds,
        (None, None) => true,
        _ => false,
    }
}

/// Whether two rows are of one mode and differ at most in their meters.
pub open spec fn same_but_meters(left: Option<ModeRow>, right: Option<ModeRow>) -> bool {
    match (left, right) {
        (Some(left), Some(right)) => {
            &&& left.rental == right.rental
            &&& left.links@ == right.links@
            &&& match (left.eligible, right.eligible) {
                (Some(left), Some(right)) => left@ == right@,
                (None, None) => true,
                _ => false,
            }
            &&& left.cells@.len() == right.cells@.len()
            &&& forall|stop: int|
                0 <= stop < left.cells@.len() ==> same_time(
                    #[trigger] left.cells@[stop],
                    right.cells@[stop],
                )
        },
        (None, None) => true,
        _ => false,
    }
}

/// Whether two policies' rows differ at most in their meters.
pub open spec fn rows_same_but_meters(
    left: Seq<Option<ModeRow>>,
    right: Seq<Option<ModeRow>>,
) -> bool {
    &&& left.len() == right.len()
    &&& forall|i: int| 0 <= i < left.len() ==> same_but_meters(#[trigger] left[i], right[i])
}

/// Whether two lists of choices agree, choice by choice, but for meters.
spec fn choices_agree(left: Seq<Winner>, right: Seq<Winner>) -> bool {
    &&& left.len() == right.len()
    &&& forall|i: int|
        0 <= i < left.len() ==> unmetered(#[trigger] left[i]) == unmetered(right[i])
}

proof fn lemma_agreeing_elections(left: Seq<Winner>, right: Seq<Winner>)
    requires
        choices_agree(left, right),
    ensures
        unmetered_option(elect(left)) == unmetered_option(elect(right)),
    decreases left.len(),
{
    if left.len() > 0 {
        let ours = left.drop_last();
        let theirs = right.drop_last();
        assert forall|i: int| 0 <= i < ours.len() implies unmetered(#[trigger] ours[i])
            == unmetered(theirs[i]) by {
            assert(ours[i] == left[i]);
        }
        lemma_agreeing_elections(ours, theirs);
        assert(unmetered(left[left.len() - 1]) == unmetered(right[right.len() - 1]));
        if elect(ours) is Some {
            let held = elect(ours)->0;
            let other = elect(theirs)->0;
            assert(unmetered(held) == unmetered(other));
            assert(beats(left.last(), held) == beats(right.last(), other));
        }
    }
}

proof fn lemma_agreeing_directs(
    left: Seq<Option<ModeRow>>,
    right: Seq<Option<ModeRow>>,
    stop: int,
    stops: nat,
    count: int,
)
    requires
        rows_same_but_meters(left, right),
        forall|i: int| 0 <= i < left.len() ==> row_wf(#[trigger] left[i], stops),
        0 <= stop < stops,
        count <= left.len(),
    ensures
        choices_agree(direct_choices(left, stop, count), direct_choices(right, stop, count)),
    decreases count,
{
    if count > 0 {
        lemma_agreeing_directs(left, right, stop, stops, count - 1);
        assert(row_wf(left[count - 1], stops));
        assert(same_but_meters(left[count - 1], right[count - 1]));
        if let (Some(ours), Some(theirs)) = (left[count - 1], right[count - 1]) {
            assert(same_time(ours.cells@[stop], theirs.cells@[stop]));
            assert(unmetered_option(direct_choice(ours, count - 1, stop)) == unmetered_option(
                direct_choice(theirs, count - 1, stop),
            ));
        }
    }
}

/// Seeds that agree but for meters carry choices that do.
proof fn lemma_agreeing_carries(
    left: Seq<Option<Winner>>,
    right: Seq<Option<Winner>>,
    transfers: TransferRows,
    rented: Option<Seq<bool>>,
    egress: bool,
    stop: int,
    slots: int,
)
    requires
        transfers.wf(left.len()),
        left.len() == right.len(),
        slots <= transfers.edges@.len(),
        forall|s: int|
            0 <= s < left.len() ==> unmetered_option(#[trigger] left[s]) == unmetered_option(
                right[s],
            ),
    ensures
        choices_agree(
            carried_choices(left, transfers, rented, egress, stop, slots),
            carried_choices(right, transfers, rented, egress, stop, slots),
        ),
    decreases slots,
{
    if slots > 0 {
        let slot = slots - 1;
        lemma_agreeing_carries(left, right, transfers, rented, egress, stop, slot);
        lemma_source_in_range(transfers, left.len(), slot, egress);
        let source = carry_source(transfers, slot, egress);
        assert(unmetered_option(left[source]) == unmetered_option(right[source]));
        if left[source] is Some {
            let rents = bears_rental(rented, slot);
            let transfer = transfers.edges@[slot];
            assert(unmetered(carried(left[source]->0, transfer, source, rents)) == unmetered(
                carried(right[source]->0, transfer, source, rents),
            ));
        }
    }
}

/// Tracking meters changes no reduced choice but for its meters: the
/// meters-carrying rows have the seconds, modes, links and stops of the
/// times-only ones, cell for cell.
pub proof fn law_reduction_ignores_meters(
    left: Seq<Option<ModeRow>>,
    right: Seq<Option<ModeRow>>,
    excluded: Seq<bool>,
    transfers: TransferRows,
    rented: Option<Seq<bool>>,
    egress: bool,
    stop: int,
)
    requires
        rows_same_but_meters(left, right),
        forall|i: int| 0 <= i < left.len() ==> row_wf(#[trigger] left[i], excluded.len()),
        transfers.wf(excluded.len()),
        0 <= stop < excluded.len(),
    ensures
        unmetered_option(reduced(left, excluded, transfers, rented, egress, stop))
            == unmetered_option(reduced(right, excluded, transfers, rented, egress, stop)),
{
    let ours = seeds_of(left, excluded);
    let theirs = seeds_of(right, excluded);
    assert forall|s: int| 0 <= s < ours.len() implies unmetered_option(#[trigger] ours[s])
        == unmetered_option(theirs[s]) by {
        lemma_agreeing_directs(left, right, s, excluded.len(), left.len() as int);
        lemma_agreeing_elections(
            direct_choices(left, s, left.len() as int),
            direct_choices(right, s, right.len() as int),
        );
        assert(ours[s] == seed(left, excluded, s));
    }
    let slots = transfers.edges@.len() as int;
    lemma_agreeing_directs(left, right, stop, excluded.len(), left.len() as int);
    lemma_agreeing_carries(ours, theirs, transfers, rented, egress, stop, slots);
    let direct = direct_choices(left, stop, left.len() as int);
    let other = direct_choices(right, stop, right.len() as int);
    let over = carried_choices(ours, transfers, rented, egress, stop, slots);
    let others = carried_choices(theirs, transfers, rented, egress, stop, slots);
    assert forall|i: int| 0 <= i < (direct + over).len() implies unmetered(
        #[trigger] (direct + over)[i],
    ) == unmetered((other + others)[i]) by {
        if i < direct.len() {
            assert(unmetered(direct[i]) == unmetered(other[i]));
        } else {
            assert(unmetered(over[i - direct.len()]) == unmetered(others[i - direct.len()]));
        }
    }
    lemma_agreeing_elections(direct + over, other + others);
}

/// The rows of a policy without their grams.
pub open spec fn mode_rows(rows: Seq<Option<GramRow>>) -> Seq<Option<ModeRow>> {
    rows.map_values(
        |row: Option<GramRow>|
            match row {
                Some(row) => Some(row.row),
                None => None,
            },
    )
}

/// The direct frontiers that the closure extends.
pub open spec fn frontier_seeds(rows: Seq<Option<GramRow>>, excluded: Seq<bool>) -> Seq<
    Seq<ParetoChoice>,
> {
    Seq::new(excluded.len(), |stop: int| direct_frontier(rows, excluded, stop))
}

/// The frontiers closed under one transfer, where `grams` are the summed
/// grams of the extensions.
pub open spec fn closed_frontiers(
    rows: Seq<Option<GramRow>>,
    excluded: Seq<bool>,
    transfers: TransferRows,
    rented: Option<Seq<bool>>,
    egress: bool,
    grams: Seq<u64>,
) -> Seq<Seq<ParetoChoice>> {
    let seeds = frontier_seeds(rows, excluded);
    let extensions = extensions_over(
        seeds,
        excluded,
        transfers,
        egress,
        transfers.edges@.len() as int,
    );
    Seq::new(
        excluded.len(),
        |stop: int|
            inserted_all(
                seeds[stop],
                carried_points(
                    seeds,
                    transfers,
                    rented,
                    extensions,
                    grams,
                    stop,
                    extensions.len() as int,
                ),
            ),
    )
}

/// Whether every factor is zero: no row emits anything anywhere …
pub open spec fn rows_emit_nothing(rows: Seq<Option<GramRow>>) -> bool {
    forall|i: int, stop: int|
        0 <= i < rows.len() && rows[i] is Some && 0 <= stop < rows[i]->0.grams@.len()
            ==> #[trigger] rows[i]->0.grams@[stop] == 0
}

/// … and no extension does.
pub open spec fn nothing_emitted(grams: Seq<u64>) -> bool {
    forall|k: int| 0 <= k < grams.len() ==> #[trigger] grams[k] == 0
}

spec fn all_clean(points: Seq<ParetoChoice>) -> bool {
    forall|i: int| 0 <= i < points.len() ==> (#[trigger] points[i]).grams == 0
}

/// Whether a frontier is a single clean point for a choice, or empty for
/// none.
pub open spec fn stands_for(frontier: Seq<ParetoChoice>, choice: Option<Winner>) -> bool {
    match choice {
        None => frontier.len() == 0,
        Some(winner) => {
            &&& frontier.len() == 1
            &&& frontier[0].winner == winner
            &&& frontier[0].grams == 0
        },
    }
}

/// Whether one point is met before another: direct points by their mode,
/// then carried ones by their transfer.
spec fn met_before(left: ParetoChoice, right: ParetoChoice) -> bool {
    ||| slot_rank(left.slot) < slot_rank(right.slot)
    ||| left.slot is None && right.slot is None && left.winner.order < right.winner.order
}

spec fn met_in_order(points: Seq<ParetoChoice>) -> bool {
    forall|i: int, j: int|
        0 <= i < j < points.len() ==> met_before(#[trigger] points[i], #[trigger] points[j])
}

/// Clean candidates, met in order, leave the elected choice alone.
proof fn lemma_clean_frontier(candidates: Seq<ParetoChoice>)
    requires
        all_clean(candidates),
        met_in_order(candidates),
    ensures
        stands_for(frontier_of(candidates), elect(winners(candidates))),
{
    assert(ties_in_order(candidates)) by {
        assert forall|i: int, j: int|
            0 <= i < j < candidates.len() && (#[trigger] candidates[i]).winner.seconds == (
            #[trigger] candidates[j]).winner.seconds && candidates[i].winner.rentals
                == candidates[j].winner.rentals && candidates[i].winner.order
                == candidates[j].winner.order implies !outranks(
            candidates[j],
            candidates[i],
        ) by {
            assert(met_before(candidates[i], candidates[j]));
        }
    }
    law_equal_grams_leave_the_fastest(candidates, grams_key(0));
    law_frontier(candidates);
    let frontier = frontier_of(candidates);
    if frontier.len() == 1 {
        assert(candidates.contains(frontier[0]));
    }
}

proof fn lemma_clean_directs(rows: Seq<Option<GramRow>>, stop: int, stops: nat, count: int)
    requires
        rows_emit_nothing(rows),
        forall|i: int| 0 <= i < rows.len() ==> gram_row_wf(#[trigger] rows[i], stops),
        0 <= stop < stops,
        count <= rows.len() <= usize::MAX,
    ensures
        all_clean(direct_points(rows, stop, count)),
        met_in_order(direct_points(rows, stop, count)),
        forall|i: int|
            0 <= i < direct_points(rows, stop, count).len() ==> {
                &&& (#[trigger] direct_points(rows, stop, count)[i]).slot is None
                &&& direct_points(rows, stop, count)[i].winner.order < count
            },
        winners(direct_points(rows, stop, count)) == direct_choices(mode_rows(rows), stop, count),
    decreases count,
{
    let points = direct_points(rows, stop, count);
    if count > 0 {
        lemma_clean_directs(rows, stop, stops, count - 1);
        let before = direct_points(rows, stop, count - 1);
        if let Some(row) = rows[count - 1] {
            assert(gram_row_wf(rows[count - 1], stops));
            assert(rows[count - 1]->0.grams@[stop] == 0);
            if let Some(point) = direct_point(row, count - 1, stop) {
                assert(points == before.push(point));
                assert(winners(points) =~= winners(before).push(point.winner));
            }
        }
    } else {
        assert(winners(points) =~= Seq::empty());
    }
}

proof fn lemma_clean_seed(rows: Seq<Option<GramRow>>, excluded: Seq<bool>, stop: int)
    requires
        rows_emit_nothing(rows),
        forall|i: int| 0 <= i < rows.len() ==> gram_row_wf(#[trigger] rows[i], excluded.len()),
        rows.len() <= usize::MAX,
        0 <= stop < excluded.len(),
    ensures
        stands_for(
            direct_frontier(rows, excluded, stop),
            seed(mode_rows(rows), excluded, stop),
        ),
{
    if !excluded[stop] {
        lemma_clean_directs(rows, stop, excluded.len(), rows.len() as int);
        lemma_clean_frontier(direct_points(rows, stop, rows.len() as int));
    }
}

/// What the first extensions carry does not depend on later ones.
proof fn lemma_carried_prefix(
    seeds: Seq<Seq<ParetoChoice>>,
    transfers: TransferRows,
    rented: Option<Seq<bool>>,
    fewer: Seq<Extension>,
    more: Seq<Extension>,
    grams: Seq<u64>,
    stop: int,
    count: int,
)
    requires
        count <= fewer.len() <= more.len(),
        forall|k: int| 0 <= k < fewer.len() ==> #[trigger] fewer[k] == more[k],
    ensures
        carried_points(seeds, transfers, rented, fewer, grams, stop, count) == carried_points(
            seeds,
            transfers,
            rented,
            more,
            grams,
            stop,
            count,
        ),
    decreases count,
{
    if count > 0 {
        lemma_carried_prefix(seeds, transfers, rented, fewer, more, grams, stop, count - 1);
        assert(fewer[count - 1] == more[count - 1]);
    }
}

/// Over clean single seeds the extensions carry what the time-only closure
/// does.
proof fn lemma_clean_carries(
    rows: Seq<Option<GramRow>>,
    excluded: Seq<bool>,
    transfers: TransferRows,
    rented: Option<Seq<bool>>,
    egress: bool,
    grams: Seq<u64>,
    stop: int,
    slots: int,
)
    requires
        rows_emit_nothing(rows),
        forall|i: int| 0 <= i < rows.len() ==> gram_row_wf(#[trigger] rows[i], excluded.len()),
        rows.len() <= usize::MAX,
        excluded.len() <= u32::MAX,
        transfers.wf(excluded.len()),
        0 <= slots <= transfers.edges@.len(),
        0 <= stop < excluded.len(),
        nothing_emitted(grams),
        extensions_over(
            frontier_seeds(rows, excluded),
            excluded,
            transfers,
            egress,
            slots,
        ).len() <= grams.len(),
    ensures
        ({
            let seeds = frontier_seeds(rows, excluded);
            let extensions = extensions_over(seeds, excluded, transfers, egress, slots);
            let points = carried_points(
                seeds,
                transfers,
                rented,
                extensions,
                grams,
                stop,
                extensions.len() as int,
            );
            &&& all_clean(points)
            &&& met_in_order(points)
            &&& forall|i: int|
                0 <= i < points.len() ==> (#[trigger] points[i]).slot is Some && 0 <= slot_rank(
                    points[i].slot,
                ) < slots
            &&& winners(points) == if excluded[stop] {
                Seq::empty()
            } else {
                carried_choices(
                    seeds_of(mode_rows(rows), excluded),
                    transfers,
                    rented,
                    egress,
                    stop,
                    slots,
                )
            }
        }),
    decreases slots,
{
    let seeds = frontier_seeds(rows, excluded);
    let plain = seeds_of(mode_rows(rows), excluded);
    let extensions = extensions_over(seeds, excluded, transfers, egress, slots);
    let points = carried_points(
        seeds,
        transfers,
        rented,
        extensions,
        grams,
        stop,
        extensions.len() as int,
    );
    if slots > 0 {
        let slot = slots - 1;
        let earlier = extensions_over(seeds, excluded, transfers, egress, slot);
        let target = carry_target(transfers, slot, egress);
        let source = carry_source(transfers, slot, egress);
        lemma_source_in_range(transfers, excluded.len(), slot, egress);
        lemma_clean_seed(rows, excluded, source);
        assert(seeds[source] == direct_frontier(rows, excluded, source));
        assert(plain[source] == seed(mode_rows(rows), excluded, source));
        reveal_with_fuel(slot_extensions, 3);
        assert(earlier.len() <= extensions.len());
        lemma_clean_carries(rows, excluded, transfers, rented, egress, grams, stop, slot);
        lemma_carried_prefix(
            seeds,
            transfers,
            rented,
            earlier,
            extensions,
            grams,
            stop,
            earlier.len() as int,
        );
        let before = carried_points(
            seeds,
            transfers,
            rented,
            earlier,
            grams,
            stop,
            earlier.len() as int,
        );
        if extensions.len() > earlier.len() {
            assert(extensions.len() == earlier.len() + 1);
            let extension = extensions[extensions.len() - 1];
            assert(transfers.offsets@.last() == transfers.edges@.len());
            assert(extension == (Extension {
                source: source as usize,
                point: 0,
                slot: slot as usize,
                target: target as usize,
            }));
            if target == stop {
                let point = carried_point(
                    seeds,
                    transfers,
                    rented,
                    extension,
                    grams[extensions.len() - 1],
                );
                assert(points == before.push(point));
                assert(winners(points) =~= winners(before).push(point.winner));
            }
        } else {
            assert(extensions =~= earlier);
        }
    } else {
        assert(winners(points) =~= Seq::empty());
    }
}

proof fn lemma_insert_after(first: Seq<ParetoChoice>, more: Seq<ParetoChoice>)
    ensures
        inserted_all(frontier_of(first), more) == frontier_of(first + more),
    decreases more.len(),
{
    if more.len() == 0 {
        assert(first + more =~= first);
    } else {
        lemma_insert_after(first, more.drop_last());
        assert((first + more).drop_last() =~= first + more.drop_last());
        assert((first + more).last() == more.last());
    }
}

/// With every factor zero a stop's closed frontier is its reduced choice.
pub proof fn law_zero_factors_leave_the_winner(
    rows: Seq<Option<GramRow>>,
    excluded: Seq<bool>,
    transfers: TransferRows,
    rented: Option<Seq<bool>>,
    egress: bool,
    grams: Seq<u64>,
    stop: int,
)
    requires
        rows_emit_nothing(rows),
        forall|i: int| 0 <= i < rows.len() ==> gram_row_wf(#[trigger] rows[i], excluded.len()),
        rows.len() <= usize::MAX,
        excluded.len() <= u32::MAX,
        transfers.wf(excluded.len()),
        0 <= stop < excluded.len(),
        nothing_emitted(grams),
        grams.len() == extensions_over(
            frontier_seeds(rows, excluded),
            excluded,
            transfers,
            egress,
            transfers.edges@.len() as int,
        ).len(),
    ensures
        stands_for(
            closed_frontiers(rows, excluded, transfers, rented, egress, grams)[stop],
            reduced(mode_rows(rows), excluded, transfers, rented, egress, stop),
        ),
{
    let seeds = frontier_seeds(rows, excluded);
    let slots = transfers.edges@.len() as int;
    let extensions = extensions_over(seeds, excluded, transfers, egress, slots);
    let over = carried_points(
        seeds,
        transfers,
        rented,
        extensions,
        grams,
        stop,
        extensions.len() as int,
    );
    lemma_clean_carries(rows, excluded, transfers, rented, egress, grams, stop, slots);
    if excluded[stop] {
        assert(winners(over).len() == over.len());
    } else {
        let direct = direct_points(rows, stop, rows.len() as int);
        lemma_clean_directs(rows, stop, excluded.len(), rows.len() as int);
        lemma_insert_after(direct, over);
        assert(winners(direct + over) =~= winners(direct) + winners(over));
        lemma_clean_frontier(direct + over);
    }
}

/// With every factor zero the Pareto rows are the reduced rows, row for row:
/// the same stop, seconds, mode, link, connector and transfer stop, and no
/// grams. The time-only rows may come from searches that track no meters;
/// where they track the same ones, the meters agree too.
pub proof fn law_zero_factors_leave_the_reduced_rows(
    rows: Seq<Option<GramRow>>,
    plain: Seq<Option<ModeRow>>,
    excluded: Seq<bool>,
    transfers: TransferRows,
    rented: Option<Seq<bool>>,
    egress: bool,
    grams: Seq<u64>,
    rides: Map<u64, usize>,
    tokens: Seq<RideToken>,
    stops: int,
)
    requires
        rows_emit_nothing(rows),
        forall|i: int| 0 <= i < rows.len() ==> gram_row_wf(#[trigger] rows[i], excluded.len()),
        rows_same_but_meters(mode_rows(rows), plain),
        rows.len() <= usize::MAX,
        excluded.len() <= u32::MAX,
        transfers.wf(excluded.len()),
        0 <= stops <= excluded.len(),
        nothing_emitted(grams),
        grams.len() == extensions_over(
            frontier_seeds(rows, excluded),
            excluded,
            transfers,
            egress,
            transfers.edges@.len() as int,
        ).len(),
    ensures
        ({
            let flat = flat_rows(
                closed_frontiers(rows, excluded, transfers, rented, egress, grams),
                stops,
            );
            let best = Seq::new(
                excluded.len(),
                |stop: int| reduced(plain, excluded, transfers, rented, egress, stop),
            );
            let kept = kept_upto(best, rides, tokens, egress, stops);
            &&& flat.len() == kept.len()
            &&& forall|i: int|
                0 <= i < kept.len() ==> {
                    &&& (#[trigger] flat[i]).0 == kept[i].stop
                    &&& flat[i].1.grams == 0
                    &&& unmetered(flat[i].1.winner) == unmetered(kept[i].winner)
                    &&& plain == mode_rows(rows) ==> flat[i].1.winner == kept[i].winner
                }
        }),
    decreases stops,
{
    if stops > 0 {
        let stop = stops - 1;
        let frontiers = closed_frontiers(rows, excluded, transfers, rented, egress, grams);
        law_zero_factors_leave_the_reduced_rows(
            rows,
            plain,
            excluded,
            transfers,
            rented,
            egress,
            grams,
            rides,
            tokens,
            stop,
        );
        law_zero_factors_leave_the_winner(
            rows,
            excluded,
            transfers,
            rented,
            egress,
            grams,
            stop,
        );
        let ours = mode_rows(rows);
        assert forall|i: int| 0 <= i < ours.len() implies row_wf(
            #[trigger] ours[i],
            excluded.len(),
        ) by {
            assert(gram_row_wf(rows[i], excluded.len()));
        }
        law_reduction_ignores_meters(ours, plain, excluded, transfers, rented, egress, stop);
        reveal_with_fuel(sorted_points, 2);
        reveal_with_fuel(placed, 2);
        if let Some(winner) = reduced(ours, excluded, transfers, rented, egress, stop) {
            let point = frontiers[stop][0];
            assert(frontiers[stop] =~= seq![point]);
            assert(seq![point].drop_last() =~= Seq::empty());
            assert(sorted_points(frontiers[stop]) =~= seq![point]);
        } else {
            assert(sorted_points(frontiers[stop]) =~= Seq::empty());
        }
    }
}

} // verus!
