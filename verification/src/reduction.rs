//! The time-only street reduction: per stop, the fastest permitted street
//! choice across a policy's modes, closed under one installed transfer.

use crate::street_decode::{lemma_row_of, row_of};
use crate::text::ValueError;
use vstd::prelude::*;

verus! {

/// Where a point or stop meets the street graph: an edge, a fraction of it
/// and a connector length (doubles' bits).
#[derive(Debug, Clone, Copy, PartialEq, Eq, Structural)]
pub struct Snap {
    pub edge: u32,
    pub fraction: u64,
    pub connector: u64,
}

/// One cell of a mode's row: whole seconds, and the route's network and
/// total street meters (doubles' bits; zero where meters are not tracked).
#[derive(Debug, Clone, Copy, PartialEq, Eq, Structural)]
pub struct StreetCell {
    pub seconds: u32,
    pub network_m: u64,
    pub total_m: u64,
}

/// One mode's row over the stops: what it reaches, the links it reaches them
/// by, where it may be used, and whether using it is a paid rental.
pub struct ModeRow {
    pub cells: Vec<Option<StreetCell>>,
    pub links: Vec<Option<Snap>>,
    pub eligible: Option<Vec<bool>>,
    pub rental: bool,
}

/// An installed stop-to-stop transfer; the meters are a double's bits.
#[derive(Debug, Clone, Copy, PartialEq, Eq, Structural)]
pub struct Transfer {
    pub to: u32,
    pub seconds: u32,
    pub meters: u64,
}

/// Transfers by departing stop: stop `s` has the edges from `offsets[s]` up
/// to `offsets[s + 1]`.
pub struct TransferRows {
    pub offsets: Vec<u32>,
    pub edges: Vec<Transfer>,
}

impl TransferRows {
    pub open spec fn wf(&self, stops: nat) -> bool {
        &&& self.offsets@.len() == stops + 1
        &&& self.offsets@[0] == 0
        &&& forall|i: int, j: int|
            0 <= i <= j < self.offsets@.len() ==> self.offsets@[i] <= self.offsets@[j]
        &&& self.offsets@.last() == self.edges@.len()
        &&& forall|slot: int|
            #![trigger self.edges@[slot]]
            0 <= slot < self.edges@.len() ==> self.edges@[slot].to < stops
    }
}

/// The reduction's winner at a stop. A choice that the transfer closure
/// carried names the stop it came through; its snap stays the seed's.
#[derive(Debug, Clone, Copy, PartialEq, Eq, Structural)]
pub struct Winner {
    pub seconds: u32,
    /// Paid rentals along the choice: the vehicle's own, and the carried
    /// transfer's where that one bears a rental.
    pub rentals: u8,
    /// Whether the carried transfer bears a rental; such a choice cannot
    /// extend by further walking.
    pub transfer_rental: bool,
    /// Position of the mode in the policy.
    pub order: usize,
    pub snap: Snap,
    pub via: Option<u32>,
    pub network_m: u64,
    pub total_m: u64,
    pub walk_transfer_m: u64,
}

/// Faster wins; a tie falls to fewer paid rentals, then to the declared mode
/// order.
pub open spec fn beats(candidate: Winner, held: Winner) -> bool {
    ||| candidate.seconds < held.seconds
    ||| candidate.seconds == held.seconds && candidate.rentals < held.rentals
    ||| candidate.seconds == held.seconds && candidate.rentals == held.rentals && candidate.order
        < held.order
}

/// The first of the best candidates.
pub open spec fn elect(candidates: Seq<Winner>) -> Option<Winner>
    decreases candidates.len(),
{
    if candidates.len() == 0 {
        None
    } else {
        match elect(candidates.drop_last()) {
            None => Some(candidates.last()),
            Some(held) => if beats(candidates.last(), held) {
                Some(candidates.last())
            } else {
                Some(held)
            },
        }
    }
}

fn elects(candidate: Winner, held: Option<Winner>) -> (wins: bool)
    ensures
        wins == match held {
            None => true,
            Some(held) => beats(candidate, held),
        },
{
    match held {
        None => true,
        Some(held) => candidate.seconds < held.seconds || (candidate.seconds == held.seconds && (
        candidate.rentals < held.rentals || (candidate.rentals == held.rentals && candidate.order
            < held.order))),
    }
}

/// An elected choice is one of the candidates, and none of them beats it.
pub proof fn law_elected_is_best(candidates: Seq<Winner>)
    ensures
        candidates.len() == 0 <==> elect(candidates) is None,
        elect(candidates) matches Some(winner) ==> candidates.contains(winner) && forall|i: int|
            0 <= i < candidates.len() ==> !beats(#[trigger] candidates[i], winner),
    decreases candidates.len(),
{
    if candidates.len() > 0 {
        let before = candidates.drop_last();
        law_elected_is_best(before);
        let winner = elect(candidates)->0;
        if winner == candidates.last() {
            assert(candidates[candidates.len() - 1] == winner);
        } else {
            let at = choose|i: int| 0 <= i < before.len() && before[i] == winner;
            assert(candidates[at] == winner);
        }
        assert forall|i: int| 0 <= i < candidates.len() implies !beats(
            #[trigger] candidates[i],
            winner,
        ) by {
            if i < candidates.len() - 1 {
                assert(before[i] == candidates[i]);
            }
        }
    }
}

/// The time, rentals and mode of an election do not depend on the order of
/// its candidates, and one that beats every other is elected wherever it
/// stands.
pub proof fn law_election_ignores_order(left: Seq<Winner>, right: Seq<Winner>)
    requires
        forall|choice: Winner| left.contains(choice) <==> right.contains(choice),
    ensures
        match (elect(left), elect(right)) {
            (Some(ours), Some(theirs)) => {
                &&& ours.seconds == theirs.seconds
                &&& ours.rentals == theirs.rentals
                &&& ours.order == theirs.order
                &&& (forall|i: int|
                    0 <= i < left.len() && left[i] != ours ==> beats(ours, #[trigger] left[i]))
                    ==> ours == theirs
            },
            (None, None) => true,
            _ => false,
        },
{
    law_elected_is_best(left);
    law_elected_is_best(right);
    if left.len() > 0 {
        assert(left.contains(left[0]));
    }
    if right.len() > 0 {
        assert(right.contains(right[0]));
    }
    if elect(left) is Some && elect(right) is Some {
        let ours = elect(left)->0;
        let theirs = elect(right)->0;
        assert(right.contains(ours) && left.contains(theirs));
        let i = choose|i: int| 0 <= i < right.len() && right[i] == ours;
        let j = choose|j: int| 0 <= j < left.len() && left[j] == theirs;
        assert(!beats(right[i], theirs) && !beats(left[j], ours));
    }
}

/// A mode's own choice at a stop, where it reaches and may serve it.
pub open spec fn direct_choice(row: ModeRow, order: int, stop: int) -> Option<Winner> {
    match (row.cells@[stop], row.links@[stop]) {
        (Some(cell), Some(snap)) => if row.eligible matches Some(mask) && !mask@[stop] {
            None
        } else {
            Some(
                Winner {
                    seconds: cell.seconds,
                    rentals: if row.rental {
                        1
                    } else {
                        0
                    },
                    transfer_rental: false,
                    order: order as usize,
                    snap,
                    via: None,
                    network_m: cell.network_m,
                    total_m: cell.total_m,
                    walk_transfer_m: 0,
                },
            )
        },
        _ => None,
    }
}

/// The direct choices of the first `count` modes at a stop, in declared
/// order. A mode without a row has none.
pub open spec fn direct_choices(rows: Seq<Option<ModeRow>>, stop: int, count: int) -> Seq<Winner>
    decreases count,
{
    if count <= 0 {
        Seq::empty()
    } else {
        let before = direct_choices(rows, stop, count - 1);
        match rows[count - 1] {
            Some(row) => match direct_choice(row, count - 1, stop) {
                Some(choice) => before.push(choice),
                None => before,
            },
            None => before,
        }
    }
}

/// The seed at each stop: the elected direct choice, none where the query
/// excludes the stop.
pub open spec fn seed(rows: Seq<Option<ModeRow>>, excluded: Seq<bool>, stop: int) -> Option<
    Winner,
> {
    if excluded[stop] {
        None
    } else {
        elect(direct_choices(rows, stop, rows.len() as int))
    }
}

/// A seed carried over one transfer: its time plus the transfer's.
pub open spec fn carried(seed: Winner, transfer: Transfer, source: int, rented: bool) -> Winner {
    Winner {
        seconds: (seed.seconds + transfer.seconds) as u32,
        rentals: (seed.rentals + if rented {
            1int
        } else {
            0
        }) as u8,
        transfer_rental: seed.transfer_rental || rented,
        via: Some(source as u32),
        walk_transfer_m: transfer.meters,
        ..seed
    }
}

/// The stop that a transfer carries labels from …
pub open spec fn carry_source(transfers: TransferRows, slot: int, egress: bool) -> int {
    if egress {
        transfers.edges@[slot].to as int
    } else {
        row_of(transfers.offsets@, slot, 0)
    }
}

/// … and to: along the transfer for access, against it for egress.
pub open spec fn carry_target(transfers: TransferRows, slot: int, egress: bool) -> int {
    if egress {
        row_of(transfers.offsets@, slot, 0)
    } else {
        transfers.edges@[slot].to as int
    }
}

/// Whether a transfer bears a paid rental.
pub open spec fn bears_rental(rented: Option<Seq<bool>>, slot: int) -> bool {
    rented matches Some(flags) && flags[slot]
}

/// What the first `slots` transfers carry to a stop, in transfer order.
pub open spec fn carried_choices(
    seeds: Seq<Option<Winner>>,
    transfers: TransferRows,
    rented: Option<Seq<bool>>,
    egress: bool,
    stop: int,
    slots: int,
) -> Seq<Winner>
    decreases slots,
{
    if slots <= 0 {
        Seq::empty()
    } else {
        let slot = slots - 1;
        let before = carried_choices(seeds, transfers, rented, egress, stop, slot);
        let source = carry_source(transfers, slot, egress);
        match seeds[source] {
            Some(seed) => if carry_target(transfers, slot, egress) == stop && seed.seconds
                + transfers.edges@[slot].seconds <= u32::MAX {
                before.push(
                    carried(seed, transfers.edges@[slot], source, bears_rental(rented, slot)),
                )
            } else {
                before
            },
            None => before,
        }
    }
}

pub open spec fn flags_view(rented: Option<&Vec<bool>>) -> Option<Seq<bool>> {
    match rented {
        Some(flags) => Some(flags@),
        None => None,
    }
}

pub open spec fn seeds_of(rows: Seq<Option<ModeRow>>, excluded: Seq<bool>) -> Seq<Option<Winner>> {
    Seq::new(excluded.len(), |stop: int| seed(rows, excluded, stop))
}

/// The reduced choice at a stop: the best of its direct choices and of what
/// one transfer carries there from other stops' seeds. An excluded stop
/// takes no part.
pub open spec fn reduced(
    rows: Seq<Option<ModeRow>>,
    excluded: Seq<bool>,
    transfers: TransferRows,
    rented: Option<Seq<bool>>,
    egress: bool,
    stop: int,
) -> Option<Winner> {
    if excluded[stop] {
        None
    } else {
        elect(
            direct_choices(rows, stop, rows.len() as int) + carried_choices(
                seeds_of(rows, excluded),
                transfers,
                rented,
                egress,
                stop,
                transfers.edges@.len() as int,
            ),
        )
    }
}

/// Whether a mode's row covers that many stops.
pub open spec fn row_wf(row: Option<ModeRow>, stops: nat) -> bool {
    row matches Some(row) ==> {
        &&& row.cells@.len() == stops
        &&& row.links@.len() == stops
        &&& row.eligible matches Some(mask) ==> mask@.len() == stops
    }
}

/// Whether any of the policy's modes has a row.
pub open spec fn any_row(rows: Seq<Option<ModeRow>>) -> bool {
    exists|i: int| 0 <= i < rows.len() && #[trigger] rows[i] is Some
}

proof fn lemma_elect_push(candidates: Seq<Winner>, candidate: Winner)
    ensures
        elect(candidates.push(candidate)) == match elect(candidates) {
            None => Some(candidate),
            Some(held) => if beats(candidate, held) {
                Some(candidate)
            } else {
                Some(held)
            },
        },
{
    assert(candidates.push(candidate).drop_last() =~= candidates);
}

/// The direct winners of a policy's rows; `None` where no mode has a row.
fn direct_winners(rows: &Vec<Option<ModeRow>>, stops: usize) -> (best: Option<
    Vec<Option<Winner>>,
>)
    requires
        forall|i: int| 0 <= i < rows@.len() ==> row_wf(#[trigger] rows@[i], stops as nat),
    ensures
        best is Some == any_row(rows@),
        best matches Some(best) ==> {
            &&& best@.len() == stops
            &&& forall|stop: int|
                0 <= stop < stops ==> #[trigger] best@[stop] == elect(
                    direct_choices(rows@, stop, rows@.len() as int),
                )
        },
{
    let mut best: Vec<Option<Winner>> = Vec::new();
    let mut filled: usize = 0;
    while filled < stops
        invariant
            filled <= stops,
            best@.len() == filled,
            forall|stop: int|
                0 <= stop < filled ==> #[trigger] best@[stop] == elect(
                    direct_choices(rows@, stop, 0),
                ),
        decreases stops - filled,
    {
        best.push(None);
        filled += 1;
    }
    let mut snapped: bool = false;
    let mut order: usize = 0;
    while order < rows.len()
        invariant
            order <= rows@.len(),
            best@.len() == stops,
            forall|i: int| 0 <= i < rows@.len() ==> row_wf(#[trigger] rows@[i], stops as nat),
            snapped == exists|i: int| 0 <= i < order && #[trigger] rows@[i] is Some,
            forall|stop: int|
                0 <= stop < stops ==> #[trigger] best@[stop] == elect(
                    direct_choices(rows@, stop, order as int),
                ),
        decreases rows.len() - order,
    {
        if let Some(row) = &rows[order] {
            assert(row_wf(rows@[order as int], stops as nat));
            assert(rows@[order as int] is Some);
            snapped = true;
            let mut stop: usize = 0;
            while stop < stops
                invariant
                    stop <= stops,
                    order < rows@.len(),
                    best@.len() == stops,
                    rows@[order as int] == Some(*row),
                    row_wf(rows@[order as int], stops as nat),
                    forall|s: int|
                        0 <= s < stop ==> #[trigger] best@[s] == elect(
                            direct_choices(rows@, s, order + 1),
                        ),
                    forall|s: int|
                        stop <= s < stops ==> #[trigger] best@[s] == elect(
                            direct_choices(rows@, s, order as int),
                        ),
                decreases stops - stop,
            {
                let eligible: bool = match &row.eligible {
                    Some(mask) => mask[stop],
                    None => true,
                };
                let ghost before = direct_choices(rows@, stop as int, order as int);
                match (row.cells[stop], row.links[stop]) {
                    (Some(cell), Some(snap)) => {
                        if eligible {
                            let candidate = Winner {
                                seconds: cell.seconds,
                                rentals: if row.rental {
                                    1
                                } else {
                                    0
                                },
                                transfer_rental: false,
                                order,
                                snap,
                                via: None,
                                network_m: cell.network_m,
                                total_m: cell.total_m,
                                walk_transfer_m: 0,
                            };
                            proof {
                                lemma_elect_push(before, candidate);
                            }
                            if elects(candidate, best[stop]) {
                                best.set(stop, Some(candidate));
                            }
                        }
                    },
                    _ => {},
                }
                stop += 1;
            }
        }
        order += 1;
    }
    if snapped {
        Some(best)
    } else {
        None
    }
}

/// A policy none of whose modes reaches the coordinate.
pub open spec fn unsnapped_policy_text() -> Seq<char> {
    "coordinate too far from the multimodal street network for every policy mode"@
}

/// The street reduction: per stop, the fastest permitted choice across the
/// policy's modes (in declared order), closed under the installed transfers.
///
/// The closure relaxes the direct winners, never its own output: every
/// carried choice is its seed's direct time plus exactly one transfer,
/// whatever the stop order.
pub fn reduce_street_choices(
    rows: &Vec<Option<ModeRow>>,
    excluded: &Vec<bool>,
    transfers: &TransferRows,
    rented: Option<&Vec<bool>>,
    egress: bool,
) -> (best: Result<Vec<Option<Winner>>, ValueError>)
    requires
        excluded@.len() <= u32::MAX,
        forall|i: int|
            0 <= i < rows@.len() ==> row_wf(#[trigger] rows@[i], excluded@.len()),
        transfers.wf(excluded@.len()),
        flags_view(rented) matches Some(flags) ==> flags.len() == transfers.edges@.len(),
    ensures
        best is Ok == any_row(rows@),
        best matches Err(error) ==> error.message@ == unsnapped_policy_text(),
        best matches Ok(best) ==> {
            &&& best@.len() == excluded@.len()
            &&& forall|stop: int|
                0 <= stop < excluded@.len() ==> #[trigger] best@[stop] == reduced(
                    rows@,
                    excluded@,
                    *transfers,
                    flags_view(rented),
                    egress,
                    stop,
                )
        },
{
    let stops: usize = excluded.len();
    let direct = match direct_winners(rows, stops) {
        Some(direct) => direct,
        None => {
            return Err(
                ValueError::new(
                    "coordinate too far from the multimodal street network for every policy mode".to_owned(),
                ),
            );
        },
    };
    let mut seeds: Vec<Option<Winner>> = Vec::new();
    let mut best: Vec<Option<Winner>> = Vec::new();
    let ghost expected = seeds_of(rows@, excluded@);
    let ghost flags = flags_view(rented);
    let mut stop: usize = 0;
    while stop < stops
        invariant
            stop <= stops == excluded@.len(),
            direct@.len() == stops,
            forall|s: int|
                0 <= s < stops ==> #[trigger] direct@[s] == elect(
                    direct_choices(rows@, s, rows@.len() as int),
                ),
            expected == seeds_of(rows@, excluded@),
            seeds@ == expected.subrange(0, stop as int),
            best@ == expected.subrange(0, stop as int),
        decreases stops - stop,
    {
        let held: Option<Winner> = if excluded[stop] {
            None
        } else {
            direct[stop]
        };
        assert(direct@[stop as int] == elect(
            direct_choices(rows@, stop as int, rows@.len() as int),
        ));
        seeds.push(held);
        best.push(held);
        stop += 1;
        assert(seeds@ =~= expected.subrange(0, stop as int));
        assert(best@ =~= expected.subrange(0, stop as int));
    }
    assert(seeds@ =~= expected);
    assert(best@ =~= expected);
    assert forall|s: int| 0 <= s < stops implies #[trigger] best@[s] == partial(
        rows@,
        excluded@,
        *transfers,
        flags,
        egress,
        s,
        0,
    ) by {
        let direct = direct_choices(rows@, s, rows@.len() as int);
        assert(direct + carried_choices(expected, *transfers, flags, egress, s, 0) =~= direct);
    }
    let mut row: usize = 0;
    let mut slot: usize = 0;
    while row < stops
        invariant
            row <= stops == excluded@.len(),
            stops <= u32::MAX,
            transfers.wf(stops as nat),
            slot == transfers.offsets@[row as int],
            flags == flags_view(rented),
            flags matches Some(flags) ==> flags.len() == transfers.edges@.len(),
            expected == seeds_of(rows@, excluded@),
            seeds@ == expected,
            best@.len() == stops,
            forall|s: int|
                0 <= s < stops ==> #[trigger] best@[s] == partial(
                    rows@,
                    excluded@,
                    *transfers,
                    flags,
                    egress,
                    s,
                    slot as int,
                ),
        decreases stops - row,
    {
        let end: usize = transfers.offsets[row + 1] as usize;
        while slot < end
            invariant
                row < stops == excluded@.len(),
                stops <= u32::MAX,
                transfers.wf(stops as nat),
                transfers.offsets@[row as int] <= slot <= end,
                end == transfers.offsets@[row + 1],
                flags == flags_view(rented),
                flags matches Some(flags) ==> flags.len() == transfers.edges@.len(),
                expected == seeds_of(rows@, excluded@),
                seeds@ == expected,
                best@.len() == stops,
                forall|s: int|
                    0 <= s < stops ==> #[trigger] best@[s] == partial(
                        rows@,
                        excluded@,
                        *transfers,
                        flags,
                        egress,
                        s,
                        slot as int,
                    ),
            decreases end - slot,
        {
            proof {
                assert(transfers.offsets@[row + 1] <= transfers.offsets@.last());
                lemma_row_of(transfers.offsets@, slot as int, 0, row as int);
            }
            let transfer: Transfer = transfers.edges[slot];
            assert(transfers.edges@[slot as int].to < stops);
            let rented_edge: bool = match rented {
                Some(flags) => flags[slot],
                None => false,
            };
            let (source, target): (usize, usize) = if egress {
                (transfer.to as usize, row)
            } else {
                (row, transfer.to as usize)
            };
            let ghost before = best@;
            if !excluded[target] {
                if let Some(winner) = seeds[source] {
                    if let Some(seconds) = winner.seconds.checked_add(transfer.seconds) {
                        proof {
                            lemma_seed_is_direct(rows@, excluded@, source as int);
                        }
                        let rentals: u8 = winner.rentals + if rented_edge {
                            1
                        } else {
                            0
                        };
                        let candidate = Winner {
                            seconds,
                            rentals,
                            transfer_rental: winner.transfer_rental || rented_edge,
                            via: Some(source as u32),
                            walk_transfer_m: transfer.meters,
                            ..winner
                        };
                        assert(candidate == carried(
                            winner,
                            transfer,
                            source as int,
                            bears_rental(flags, slot as int),
                        ));
                        if elects(candidate, best[target]) {
                            best.set(target, Some(candidate));
                        }
                    }
                }
            }
            proof {
                assert forall|s: int| 0 <= s < stops implies #[trigger] best@[s] == partial(
                    rows@,
                    excluded@,
                    *transfers,
                    flags,
                    egress,
                    s,
                    slot + 1,
                ) by {
                    assert(before[s] == partial(
                        rows@,
                        excluded@,
                        *transfers,
                        flags,
                        egress,
                        s,
                        slot as int,
                    ));
                    lemma_partial_step(
                        rows@,
                        excluded@,
                        *transfers,
                        flags,
                        egress,
                        s,
                        slot as int,
                    );
                }
            }
            slot += 1;
        }
        row += 1;
    }
    assert(slot == transfers.edges@.len());
    Ok(best)
}

/// The best at a stop after the first `slots` transfers were relaxed.
spec fn partial(
    rows: Seq<Option<ModeRow>>,
    excluded: Seq<bool>,
    transfers: TransferRows,
    rented: Option<Seq<bool>>,
    egress: bool,
    stop: int,
    slots: int,
) -> Option<Winner> {
    if excluded[stop] {
        None
    } else {
        elect(
            direct_choices(rows, stop, rows.len() as int) + carried_choices(
                seeds_of(rows, excluded),
                transfers,
                rented,
                egress,
                stop,
                slots,
            ),
        )
    }
}

proof fn lemma_partial_step(
    rows: Seq<Option<ModeRow>>,
    excluded: Seq<bool>,
    transfers: TransferRows,
    rented: Option<Seq<bool>>,
    egress: bool,
    stop: int,
    slot: int,
)
    requires
        0 <= slot,
        0 <= stop < excluded.len(),
    ensures
        ({
            let source = carry_source(transfers, slot, egress);
            let seed = seeds_of(rows, excluded)[source];
            let transfer = transfers.edges@[slot];
            let before = partial(rows, excluded, transfers, rented, egress, stop, slot);
            partial(rows, excluded, transfers, rented, egress, stop, slot + 1)
                == if !excluded[stop] && carry_target(transfers, slot, egress) == stop
                && seed is Some && seed->0.seconds + transfer.seconds <= u32::MAX {
                let candidate = carried(
                    seed->0,
                    transfer,
                    source,
                    bears_rental(rented, slot),
                );
                match before {
                    None => Some(candidate),
                    Some(held) => if beats(candidate, held) {
                        Some(candidate)
                    } else {
                        Some(held)
                    },
                }
            } else {
                before
            }
        }),
{
    let seeds = seeds_of(rows, excluded);
    let source = carry_source(transfers, slot, egress);
    let direct = direct_choices(rows, stop, rows.len() as int);
    let before = carried_choices(seeds, transfers, rented, egress, stop, slot);
    if let Some(seed) = seeds[source] {
        let candidate = carried(
            seed,
            transfers.edges@[slot],
            source,
            bears_rental(rented, slot),
        );
        assert(direct + before.push(candidate) =~= (direct + before).push(candidate));
        lemma_elect_push(direct + before, candidate);
    }
}

/// A direct choice is not carried, and has at most one rental.
pub open spec fn is_direct(choice: Winner) -> bool {
    choice.via is None && choice.rentals <= 1 && !choice.transfer_rental
}

proof fn lemma_direct_choices(rows: Seq<Option<ModeRow>>, stop: int, count: int)
    ensures
        forall|i: int|
            0 <= i < direct_choices(rows, stop, count).len() ==> is_direct(
                #[trigger] direct_choices(rows, stop, count)[i],
            ),
    decreases count,
{
    if count > 0 {
        lemma_direct_choices(rows, stop, count - 1);
        let before = direct_choices(rows, stop, count - 1);
        let choices = direct_choices(rows, stop, count);
        assert forall|i: int| 0 <= i < choices.len() implies is_direct(#[trigger] choices[i]) by {
            if i < before.len() {
                assert(choices[i] == before[i]);
            }
        }
    }
}

proof fn lemma_seed_is_direct(rows: Seq<Option<ModeRow>>, excluded: Seq<bool>, stop: int)
    ensures
        seed(rows, excluded, stop) matches Some(seed) ==> is_direct(seed),
{
    let choices = direct_choices(rows, stop, rows.len() as int);
    lemma_direct_choices(rows, stop, rows.len() as int);
    law_elected_is_best(choices);
    if let Some(winner) = elect(choices) {
        let i = choose|i: int| 0 <= i < choices.len() && choices[i] == winner;
        assert(is_direct(choices[i]));
    }
}

proof fn lemma_carried_choices(
    seeds: Seq<Option<Winner>>,
    transfers: TransferRows,
    rented: Option<Seq<bool>>,
    egress: bool,
    stop: int,
    slots: int,
    at: int,
) -> (slot: int)
    requires
        0 <= at < carried_choices(seeds, transfers, rented, egress, stop, slots).len(),
    ensures
        0 <= slot < slots,
        carry_target(transfers, slot, egress) == stop,
        ({
            let source = carry_source(transfers, slot, egress);
            &&& seeds[source] is Some
            &&& seeds[source]->0.seconds + transfers.edges@[slot].seconds <= u32::MAX
            &&& carried_choices(seeds, transfers, rented, egress, stop, slots)[at] == carried(
                seeds[source]->0,
                transfers.edges@[slot],
                source,
                bears_rental(rented, slot),
            )
        }),
    decreases slots,
{
    let before = carried_choices(seeds, transfers, rented, egress, stop, slots - 1);
    if at < before.len() {
        lemma_carried_choices(seeds, transfers, rented, egress, stop, slots - 1, at)
    } else {
        slots - 1
    }
}

/// A reduced choice is either its stop's own direct choice or exactly one
/// transfer away from the direct choice of a stop that the query admits,
/// never through two transfers, and never out of an excluded stop.
pub proof fn law_closure_is_one_transfer(
    rows: Seq<Option<ModeRow>>,
    excluded: Seq<bool>,
    transfers: TransferRows,
    rented: Option<Seq<bool>>,
    egress: bool,
    stop: int,
)
    requires
        0 <= stop < excluded.len(),
        transfers.wf(excluded.len()),
        excluded.len() <= u32::MAX,
    ensures
        reduced(rows, excluded, transfers, rented, egress, stop) matches Some(winner) ==> {
            ||| is_direct(winner) && winner == seed(rows, excluded, stop)->0
            ||| exists|slot: int|
                {
                    let source = #[trigger] carry_source(transfers, slot, egress);
                    &&& 0 <= slot < transfers.edges@.len()
                    &&& carry_target(transfers, slot, egress) == stop
                    &&& seed(rows, excluded, source) matches Some(seed) && is_direct(seed)
                        && winner.seconds == seed.seconds + transfers.edges@[slot].seconds
                        && winner.via == Some(source as u32) && winner.snap == seed.snap
                }
        },
        excluded[stop] ==> reduced(rows, excluded, transfers, rented, egress, stop) is None,
{
    let seeds = seeds_of(rows, excluded);
    let slots = transfers.edges@.len() as int;
    let direct = direct_choices(rows, stop, rows.len() as int);
    let over = carried_choices(seeds, transfers, rented, egress, stop, slots);
    let all = direct + over;
    law_elected_is_best(all);
    lemma_direct_choices(rows, stop, rows.len() as int);
    if let Some(winner) = reduced(rows, excluded, transfers, rented, egress, stop) {
        let at = choose|i: int| 0 <= i < all.len() && all[i] == winner;
        if at < direct.len() {
            assert(is_direct(direct[at]));
            assert forall|i: int| 0 <= i < over.len() implies !is_direct(#[trigger] over[i]) by {
                lemma_carried_choices(seeds, transfers, rented, egress, stop, slots, i);
            }
            lemma_elect_prefix(direct, over, winner);
        } else {
            let slot = lemma_carried_choices(
                seeds,
                transfers,
                rented,
                egress,
                stop,
                slots,
                at - direct.len(),
            );
            let source = carry_source(transfers, slot, egress);
            lemma_source_in_range(transfers, excluded.len(), slot, egress);
            assert(seeds[source] == seed(rows, excluded, source));
            lemma_seed_is_direct(rows, excluded, source);
            assert(winner.via == Some(source as u32));
        }
    }
}

pub proof fn lemma_source_in_range(transfers: TransferRows, stops: nat, slot: int, egress: bool)
    requires
        transfers.wf(stops),
        0 <= slot < transfers.edges@.len(),
    ensures
        0 <= carry_source(transfers, slot, egress) < stops,
        0 <= carry_target(transfers, slot, egress) < stops,
{
    lemma_row_exists(transfers.offsets@, slot, 0);
}

proof fn lemma_row_exists(offsets: Seq<u32>, slot: int, from: int)
    requires
        0 <= from < offsets.len() - 1,
        offsets[from] <= slot < offsets.last(),
    ensures
        from <= row_of(offsets, slot, from) < offsets.len() - 1,
    decreases offsets.len() - from,
{
    if slot >= offsets[from + 1] {
        lemma_row_exists(offsets, slot, from + 1);
    }
}

/// Where the election over more candidates falls on one of the first ones,
/// those alone elect it.
proof fn lemma_elect_prefix(first: Seq<Winner>, more: Seq<Winner>, winner: Winner)
    requires
        elect(first + more) == Some(winner),
        forall|i: int| 0 <= i < first.len() ==> is_direct(#[trigger] first[i]),
        is_direct(winner),
        forall|i: int| 0 <= i < more.len() ==> !is_direct(#[trigger] more[i]),
    ensures
        elect(first) == Some(winner),
    decreases more.len(),
{
    if more.len() == 0 {
        assert(first + more =~= first);
    } else {
        assert((first + more).drop_last() =~= first + more.drop_last());
        assert(!is_direct(more.last()));
        lemma_elect_prefix(first, more.drop_last(), winner);
    }
}

/// Whether a mode serves a stop: it reaches it, over a link, and may be used
/// there.
pub open spec fn serves(row: ModeRow, stop: int) -> bool {
    &&& row.cells@[stop] is Some
    &&& row.links@[stop] is Some
    &&& row.eligible matches Some(mask) ==> mask@[stop]
}

/// A mode's choice at a stop that it serves is that stop's own: its seconds
/// and meters, the link it comes by, and one rental where the mode is rented.
/// A mode that does not serve a stop has no choice there.
pub proof fn law_direct_choices_are_the_cells(row: ModeRow, order: int, stop: int)
    requires
        0 <= order <= usize::MAX,
    ensures
        direct_choice(row, order, stop) is Some <==> serves(row, stop),
        direct_choice(row, order, stop) matches Some(choice) ==> {
            &&& row.cells@[stop] == Some(
                StreetCell {
                    seconds: choice.seconds,
                    network_m: choice.network_m,
                    total_m: choice.total_m,
                },
            )
            &&& row.links@[stop] == Some(choice.snap)
            &&& choice.order == order
            &&& choice.rentals == 1 <==> row.rental
            &&& choice.rentals <= 1
            &&& !choice.transfer_rental
            &&& choice.via is None
            &&& choice.walk_transfer_m == 0
        },
{
}

/// A carried choice takes the transfer's time more and names the stop it came
/// through; it counts one rental more where the transfer bears one, and keeps
/// the vehicle, its link and its meters.
pub proof fn law_carried_choices_add_the_transfer(
    seed: Winner,
    transfer: Transfer,
    source: int,
    rented: bool,
)
    requires
        seed.seconds + transfer.seconds <= u32::MAX,
        seed.rentals < u8::MAX,
        0 <= source <= u32::MAX,
    ensures
        ({
            let over = carried(seed, transfer, source, rented);
            &&& over.seconds - seed.seconds == transfer.seconds
            &&& rented ==> over.rentals == seed.rentals + 1 && over.transfer_rental
            &&& !rented ==> over.rentals == seed.rentals && over.transfer_rental
                == seed.transfer_rental
            &&& over.via == Some(source as u32)
            &&& over.walk_transfer_m == transfer.meters
            &&& over.order == seed.order
            &&& over.snap == seed.snap
            &&& over.network_m == seed.network_m
            &&& over.total_m == seed.total_m
        }),
{
}

/// An elected choice is one of the candidates. None of them is faster; none
/// that is as fast has fewer rentals; none that also has as many comes of an
/// earlier mode.
pub proof fn law_elected_is_fastest(candidates: Seq<Winner>)
    ensures
        elect(candidates) is None <==> candidates.len() == 0,
        elect(candidates) matches Some(winner) ==> {
            &&& candidates.contains(winner)
            &&& forall|i: int|
                0 <= i < candidates.len() ==> at_least_as_good(
                    winner,
                    (#[trigger] candidates[i]).seconds as int,
                    candidates[i].rentals as int,
                    candidates[i].order as int,
                )
        },
    decreases candidates.len(),
{
    if candidates.len() > 0 {
        let before = candidates.drop_last();
        law_elected_is_fastest(before);
        let winner = elect(candidates)->0;
        if winner == candidates.last() {
            assert(candidates[candidates.len() - 1] == winner);
        } else {
            let at = choose|i: int| 0 <= i < before.len() && before[i] == winner;
            assert(candidates[at] == winner);
        }
        assert forall|i: int| 0 <= i < candidates.len() implies at_least_as_good(
            winner,
            (#[trigger] candidates[i]).seconds as int,
            candidates[i].rentals as int,
            candidates[i].order as int,
        ) by {
            if i < candidates.len() - 1 {
                assert(before[i] == candidates[i]);
            }
        }
    }
}

/// Whether a choice is no slower than a time; as fast, with no more rentals;
/// and with as many, of no later mode.
pub open spec fn at_least_as_good(choice: Winner, seconds: int, rentals: int, order: int) -> bool {
    &&& choice.seconds <= seconds
    &&& choice.seconds == seconds ==> choice.rentals <= rentals
    &&& choice.seconds == seconds && choice.rentals == rentals ==> choice.order <= order
}

proof fn lemma_direct_choice_listed(
    rows: Seq<Option<ModeRow>>,
    stop: int,
    mode: int,
    count: int,
)
    requires
        0 <= mode < count <= rows.len(),
        rows[mode] matches Some(row) && serves(row, stop),
    ensures
        direct_choices(rows, stop, count).contains(direct_choice(rows[mode]->0, mode, stop)->0),
    decreases count,
{
    let choice = direct_choice(rows[mode]->0, mode, stop)->0;
    let before = direct_choices(rows, stop, count - 1);
    let all = direct_choices(rows, stop, count);
    if mode < count - 1 {
        lemma_direct_choice_listed(rows, stop, mode, count - 1);
        let at = choose|at: int| 0 <= at < before.len() && before[at] == choice;
        assert(all[at] == choice);
    } else {
        assert(all[all.len() - 1] == choice);
    }
}

proof fn lemma_carried_listed(
    seeds: Seq<Option<Winner>>,
    transfers: TransferRows,
    rented: Option<Seq<bool>>,
    egress: bool,
    stop: int,
    slot: int,
    slots: int,
)
    requires
        0 <= slot < slots,
        carry_target(transfers, slot, egress) == stop,
        seeds[carry_source(transfers, slot, egress)] matches Some(seed) && seed.seconds
            + transfers.edges@[slot].seconds <= u32::MAX,
    ensures
        carried_choices(seeds, transfers, rented, egress, stop, slots).contains(
            carried(
                seeds[carry_source(transfers, slot, egress)]->0,
                transfers.edges@[slot],
                carry_source(transfers, slot, egress),
                bears_rental(rented, slot),
            ),
        ),
    decreases slots,
{
    let before = carried_choices(seeds, transfers, rented, egress, stop, slots - 1);
    let all = carried_choices(seeds, transfers, rented, egress, stop, slots);
    let over = carried(
        seeds[carry_source(transfers, slot, egress)]->0,
        transfers.edges@[slot],
        carry_source(transfers, slot, egress),
        bears_rental(rented, slot),
    );
    if slot < slots - 1 {
        lemma_carried_listed(seeds, transfers, rented, egress, stop, slot, slots - 1);
        let at = choose|at: int| 0 <= at < before.len() && before[at] == over;
        assert(all[at] == over);
    } else {
        assert(all[all.len() - 1] == over);
    }
}

/// Wherever a mode serves a stop that the query admits, the stop has a reduced
/// choice, and it is no worse than the mode's own there.
pub proof fn law_no_mode_beats_the_reduction(
    rows: Seq<Option<ModeRow>>,
    excluded: Seq<bool>,
    transfers: TransferRows,
    rented: Option<Seq<bool>>,
    egress: bool,
    stop: int,
    mode: int,
)
    requires
        0 <= stop < excluded.len(),
        !excluded[stop],
        0 <= mode < rows.len() <= usize::MAX,
        rows[mode] matches Some(row) && serves(row, stop),
    ensures
        reduced(rows, excluded, transfers, rented, egress, stop) matches Some(winner)
            && at_least_as_good(
            winner,
            (rows[mode]->0.cells@[stop]->0).seconds as int,
            if rows[mode]->0.rental {
                1
            } else {
                0
            },
            mode,
        ),
{
    let direct = direct_choices(rows, stop, rows.len() as int);
    let over = carried_choices(
        seeds_of(rows, excluded),
        transfers,
        rented,
        egress,
        stop,
        transfers.edges@.len() as int,
    );
    let choice = direct_choice(rows[mode]->0, mode, stop)->0;
    lemma_direct_choice_listed(rows, stop, mode, rows.len() as int);
    law_elected_is_fastest(direct + over);
    let at = choose|at: int| 0 <= at < direct.len() && direct[at] == choice;
    assert((direct + over)[at] == choice);
}

/// Access goes along an installed transfer and egress against it: where a
/// mode serves the stop that one starts from, the stop at its other end is
/// reached in the mode's time and the transfer's together, or faster. The
/// transfers of stop `s` are those from `offsets[s]` up to `offsets[s + 1]`.
pub proof fn law_transfers_carry_what_modes_reach(
    rows: Seq<Option<ModeRow>>,
    excluded: Seq<bool>,
    transfers: TransferRows,
    rented: Option<Seq<bool>>,
    egress: bool,
    departing: int,
    slot: int,
    mode: int,
)
    requires
        transfers.wf(excluded.len()),
        0 <= departing < excluded.len() <= u32::MAX,
        transfers.offsets@[departing] <= slot < transfers.offsets@[departing + 1],
        !excluded[departing],
        !excluded[transfers.edges@[slot].to as int],
        0 <= mode < rows.len() <= usize::MAX,
        ({
            let start = if egress {
                transfers.edges@[slot].to as int
            } else {
                departing
            };
            rows[mode] matches Some(row) && serves(row, start) && (row.cells@[start]->0).seconds
                + transfers.edges@[slot].seconds <= u32::MAX
        }),
    ensures
        ({
            let other = transfers.edges@[slot].to as int;
            let (start, end) = if egress {
                (other, departing)
            } else {
                (departing, other)
            };
            reduced(rows, excluded, transfers, rented, egress, end) matches Some(winner)
                && winner.seconds <= (rows[mode]->0.cells@[start]->0).seconds
                + transfers.edges@[slot].seconds
        }),
{
    let other = transfers.edges@[slot].to as int;
    let (start, end) = if egress {
        (other, departing)
    } else {
        (departing, other)
    };
    assert(transfers.offsets@[departing + 1] <= transfers.offsets@.last());
    lemma_row_of(transfers.offsets@, slot, 0, departing);
    let own = direct_choices(rows, start, rows.len() as int);
    let choice = direct_choice(rows[mode]->0, mode, start)->0;
    lemma_direct_choice_listed(rows, start, mode, rows.len() as int);
    law_elected_is_fastest(own);
    let at = choose|at: int| 0 <= at < own.len() && own[at] == choice;
    assert(own[at] == choice);
    let seeds = seeds_of(rows, excluded);
    let slots = transfers.edges@.len() as int;
    assert(seeds[start] == elect(own));
    lemma_carried_listed(seeds, transfers, rented, egress, end, slot, slots);
    let direct = direct_choices(rows, end, rows.len() as int);
    let over = carried_choices(seeds, transfers, rented, egress, end, slots);
    law_elected_is_fastest(direct + over);
    let carried_over = carried(
        seeds[start]->0,
        transfers.edges@[slot],
        start,
        bears_rental(rented, slot),
    );
    let k = choose|k: int| 0 <= k < over.len() && over[k] == carried_over;
    assert((direct + over)[direct.len() + k] == carried_over);
}

/// A reduced choice that was not carried is some mode's own at the stop.
pub proof fn law_direct_winners_are_served(
    rows: Seq<Option<ModeRow>>,
    excluded: Seq<bool>,
    stop: int,
)
    requires
        0 <= stop < excluded.len(),
        rows.len() <= usize::MAX,
    ensures
        seed(rows, excluded, stop) matches Some(winner) ==> {
            &&& !excluded[stop]
            &&& winner.order < rows.len()
            &&& rows[winner.order as int] matches Some(row) && serves(row, stop)
                && row.cells@[stop] == Some(
                StreetCell {
                    seconds: winner.seconds,
                    network_m: winner.network_m,
                    total_m: winner.total_m,
                },
            ) && row.links@[stop] == Some(winner.snap) && (winner.rentals == 1 <==> row.rental)
        },
{
    if let Some(winner) = seed(rows, excluded, stop) {
        let own = direct_choices(rows, stop, rows.len() as int);
        law_elected_is_fastest(own);
        let at = choose|at: int| 0 <= at < own.len() && own[at] == winner;
        lemma_listed_choices(rows, stop, rows.len() as int, at);
    }
}

proof fn lemma_listed_choices(rows: Seq<Option<ModeRow>>, stop: int, count: int, at: int)
    requires
        0 <= count <= rows.len() <= usize::MAX,
        0 <= at < direct_choices(rows, stop, count).len(),
    ensures
        ({
            let choice = direct_choices(rows, stop, count)[at];
            &&& choice.order < count
            &&& rows[choice.order as int] is Some
            &&& direct_choice(rows[choice.order as int]->0, choice.order as int, stop) == Some(
                choice,
            )
        }),
    decreases count,
{
    let before = direct_choices(rows, stop, count - 1);
    if at < before.len() {
        lemma_listed_choices(rows, stop, count - 1, at);
    }
}

/// A policy is reduced exactly where some mode has a row.
pub proof fn law_policies_need_a_row(rows: Seq<Option<ModeRow>>, at: int)
    ensures
        0 <= at < rows.len() && rows[at] is Some ==> any_row(rows),
        (forall|i: int| 0 <= i < rows.len() ==> #[trigger] rows[i] is None) ==> !any_row(rows),
{
}

} // verus!
