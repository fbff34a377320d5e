//! Arrive-by columns, the nearest of a set of destinations, and the reaches
//! of a catchment.

use crate::arrive_by::{
    access_arrivals, arrive_by_access_cell, arrive_by_point_cell, arrive_by_stop_cell,
    arrive_by_stop_durations, arrive_by_winner, best_access, best_arrival, composed, duration_of,
    is_forward, law_stop_journeys_leave_last, law_winner_leaves_last, lemma_best_append, made_from,
    no_better, offer_states, offer_walk, placed_walk, point_arrivals, state_arrivals,
    states_forward, stop_arrivals, winner_of, AccessArrival, Arrival, ReverseState,
};
use crate::links::{offsets_of, walks_of, WalkedStop};
use crate::time_rows::UNREACHABLE;
use vstd::prelude::*;

verus! {

/// One column of an arrive-by stop matrix: every origin's duration to one
/// destination. A destination that is not excluded is reached from itself at
/// once.
pub fn arrive_by_column(
    states: &Vec<Vec<ReverseState>>,
    origins: &Vec<u32>,
    destination: u32,
    excluded: bool,
    deadline: u32,
) -> (column: Vec<u32>)
    requires
        forall|o: int| 0 <= o < origins@.len() ==> #[trigger] origins@[o] < states@.len(),
        forall|s: int| 0 <= s < states@.len() ==> states_forward((#[trigger] states@[s])@),
    ensures
        column@ == origins@.map_values(
            |origin: u32|
                duration_of(
                    best_arrival(
                        stop_arrivals(
                            states@[origin as int]@,
                            origin == destination && !excluded,
                            deadline,
                        ),
                    ),
                ),
        ),
{
    let mut column: Vec<u32> = Vec::new();
    let mut index: usize = 0;
    while index < origins.len()
        invariant
            index <= origins@.len(),
            forall|o: int| 0 <= o < origins@.len() ==> #[trigger] origins@[o] < states@.len(),
            forall|s: int| 0 <= s < states@.len() ==> states_forward((#[trigger] states@[s])@),
            column@.len() == index,
            forall|o: int|
                0 <= o < index ==> #[trigger] column@[o] == duration_of(
                    best_arrival(
                        stop_arrivals(
                            states@[origins@[o] as int]@,
                            origins@[o] == destination && !excluded,
                            deadline,
                        ),
                    ),
                ),
        decreases origins.len() - index,
    {
        let origin: u32 = origins[index];
        assert(origins@[index as int] < states@.len());
        assert(states_forward(states@[origin as int]@));
        column.push(
            arrive_by_stop_cell(
                &states[origin as usize],
                origin == destination && !excluded,
                deadline,
            ),
        );
        index += 1;
    }
    column
}

pub open spec fn links_reach(links: Seq<(u32, u32, u64)>, stops: nat) -> bool {
    forall|l: int| 0 <= l < links.len() ==> (#[trigger] links[l]).0 < stops
}

/// One column of an arrive-by point matrix: every origin's access links
/// composed over the states of one destination, beside its direct walk.
pub fn arrive_by_point_column(
    access: &Vec<Vec<(u32, u32, u64)>>,
    states: &Vec<Vec<ReverseState>>,
    walk: &Vec<Vec<Option<(u32, u64)>>>,
    column: usize,
    deadline: u32,
) -> (cells: Vec<u32>)
    requires
        walk@.len() == access@.len(),
        forall|r: int|
            0 <= r < access@.len() ==> links_reach((#[trigger] access@[r])@, states@.len())
                && column < walk@[r]@.len(),
        forall|s: int| 0 <= s < states@.len() ==> states_forward((#[trigger] states@[s])@),
    ensures
        cells@ == Seq::new(
            access@.len(),
            |row: int|
                duration_of(
                    best_arrival(
                        point_arrivals(
                            access@[row]@,
                            states@,
                            walk@[row]@[column as int],
                            deadline,
                        ),
                    ),
                ),
        ),
{
    let mut cells: Vec<u32> = Vec::new();
    let mut row: usize = 0;
    while row < access.len()
        invariant
            row <= access@.len() == walk@.len(),
            forall|r: int|
                0 <= r < access@.len() ==> links_reach((#[trigger] access@[r])@, states@.len())
                    && column < walk@[r]@.len(),
            forall|s: int| 0 <= s < states@.len() ==> states_forward((#[trigger] states@[s])@),
            cells@.len() == row,
            forall|r: int|
                0 <= r < row ==> #[trigger] cells@[r] == duration_of(
                    best_arrival(
                        point_arrivals(access@[r]@, states@, walk@[r]@[column as int], deadline),
                    ),
                ),
        decreases access.len() - row,
    {
        assert(links_reach(access@[row as int]@, states@.len()));
        cells.push(arrive_by_point_cell(&access[row], states, walk[row][column], deadline));
        row += 1;
    }
    cells
}

/// One column of an arrive-by matrix over access and egress tables.
pub fn arrive_by_access_column(
    access: &Vec<Vec<(u32, u32)>>,
    states: &Vec<Vec<ReverseState>>,
    egress: &Vec<(u32, u32)>,
    deadline: u32,
) -> (cells: Vec<Option<AccessArrival>>)
    requires
        forall|r: int, l: int|
            0 <= r < access@.len() && 0 <= l < access@[r]@.len() ==> (
            #[trigger] access@[r]@[l]).0 < states@.len(),
        forall|s: int| 0 <= s < states@.len() ==> states_forward((#[trigger] states@[s])@),
    ensures
        cells@ == Seq::new(
            access@.len(),
            |row: int|
                best_access(
                    access_arrivals(
                        access@[row]@,
                        states@,
                        egress@,
                        deadline,
                        access@[row]@.len() as int,
                    ),
                ),
        ),
        forall|r: int|
            0 <= r < cells@.len() ==> (#[trigger] cells@[r] matches Some(arrival)
                ==> arrival.departure <= arrival.achieved),
{
    let mut cells: Vec<Option<AccessArrival>> = Vec::new();
    let mut row: usize = 0;
    while row < access.len()
        invariant
            row <= access@.len(),
            forall|r: int, l: int|
                0 <= r < access@.len() && 0 <= l < access@[r]@.len() ==> (
                #[trigger] access@[r]@[l]).0 < states@.len(),
            forall|s: int| 0 <= s < states@.len() ==> states_forward((#[trigger] states@[s])@),
            cells@.len() == row,
            forall|r: int|
                0 <= r < row ==> #[trigger] cells@[r] == best_access(
                    access_arrivals(
                        access@[r]@,
                        states@,
                        egress@,
                        deadline,
                        access@[r]@.len() as int,
                    ),
                ),
            forall|r: int|
                0 <= r < row ==> (#[trigger] cells@[r] matches Some(arrival)
                    ==> arrival.departure <= arrival.achieved),
        decreases access.len() - row,
    {
        cells.push(arrive_by_access_cell(&access[row], states, egress, deadline));
        row += 1;
    }
    cells
}

/// std's `sort_unstable` on seconds: the same values, in ascending order.
#[verifier::external_body]
fn sort_unstable(values: &mut Vec<u32>)
    ensures
        final(values)@.to_multiset() == old(values)@.to_multiset(),
        final(values)@.len() == old(values)@.len(),
        forall|i: int, j: int|
            0 <= i <= j < final(values)@.len() ==> #[trigger] final(values)@[i]
                <= #[trigger] final(values)@[j],
{
    values.sort_unstable();
}

pub open spec fn ascending(values: Seq<u32>) -> bool {
    forall|i: int, j: int|
        0 <= i <= j < values.len() ==> #[trigger] values[i] <= #[trigger] values[j]
}

/// The distribution of durations that a percentile ranks: the same values in
/// ascending order, unreachable marks last.
pub fn ranked_durations(durations: Vec<u32>) -> (ranked: Vec<u32>)
    ensures
        ranked@.to_multiset() == durations@.to_multiset(),
        ranked@.len() == durations@.len(),
        ascending(ranked@),
{
    let mut ranked: Vec<u32> = durations;
    sort_unstable(&mut ranked);
    ranked
}

/// A stop reached by the deadline, with the journey that leaves it last.
#[derive(Debug, Clone, Copy, PartialEq, Eq, Structural)]
pub struct Reach {
    pub stop: u32,
    pub departure: u32,
    pub rides: u32,
    pub achieved: u32,
}

pub open spec fn reach_of(stop: u32, winner: Arrival) -> Reach {
    Reach {
        stop,
        departure: winner.departure,
        rides: winner.rides,
        achieved: winner.achieved,
    }
}

/// The journey of a stop's states that wins the complete-journey order.
pub open spec fn state_winner(states: Seq<ReverseState>) -> Option<Arrival> {
    best_arrival(state_arrivals(states, 0, states.len() as int))
}

/// The reaches of the first `count` stops.
pub open spec fn reaches_upto(states: Seq<Vec<ReverseState>>, count: int) -> Seq<Reach>
    decreases count,
{
    if count <= 0 {
        Seq::empty()
    } else {
        match state_winner(states[count - 1]@) {
            Some(winner) => reaches_upto(states, count - 1).push(
                reach_of((count - 1) as u32, winner),
            ),
            None => reaches_upto(states, count - 1),
        }
    }
}

fn find_winner(states: &Vec<ReverseState>) -> (winner: Option<Arrival>)
    requires
        states_forward(states@),
    ensures
        winner == state_winner(states@),
        is_forward(winner),
{
    let mut best: Option<Arrival> = None;
    offer_states(&mut best, states, 0, Ghost(Seq::empty()));
    assert(Seq::<Arrival>::empty() + state_arrivals(states@, 0, states@.len() as int)
        =~= state_arrivals(states@, 0, states@.len() as int));
    best
}

/// Every stop that reaches the deadline, reduced to its winning journey.
pub fn arrive_by_reaches(states: &Vec<Vec<ReverseState>>) -> (reaches: Vec<Reach>)
    requires
        states@.len() <= u32::MAX,
        forall|s: int| 0 <= s < states@.len() ==> states_forward((#[trigger] states@[s])@),
    ensures
        reaches@ == reaches_upto(states@, states@.len() as int),
{
    let mut reaches: Vec<Reach> = Vec::new();
    let mut stop: usize = 0;
    while stop < states.len()
        invariant
            stop <= states@.len() <= u32::MAX,
            forall|s: int| 0 <= s < states@.len() ==> states_forward((#[trigger] states@[s])@),
            reaches@ == reaches_upto(states@, stop as int),
        decreases states.len() - stop,
    {
        assert(states_forward(states@[stop as int]@));
        if let Some(winner) = find_winner(&states[stop]) {
            reaches.push(
                Reach {
                    stop: stop as u32,
                    departure: winner.departure,
                    rides: winner.rides,
                    achieved: winner.achieved,
                },
            );
        }
        stop += 1;
    }
    reaches
}

/// The first mark whose winner lasts a given time, from `from` on.
pub open spec fn first_lasting(profile: Seq<Vec<ReverseState>>, seconds: u32, from: int) -> Option<
    Arrival,
>
    decreases profile.len() - from,
{
    if from >= profile.len() {
        None
    } else {
        match state_winner(profile[from]@) {
            Some(winner) => if winner.achieved - winner.departure == seconds {
                Some(winner)
            } else {
                first_lasting(profile, seconds, from + 1)
            },
            None => first_lasting(profile, seconds, from + 1),
        }
    }
}

/// The journey that a percentile of a stop's window picks: the first mark's
/// winner that lasts as long as the percentile says. A stop that is
/// unreachable at the percentile has none.
pub fn percentile_winner(profile: &Vec<Vec<ReverseState>>, rank: u32) -> (winner: Option<Arrival>)
    requires
        forall|m: int| 0 <= m < profile@.len() ==> states_forward((#[trigger] profile@[m])@),
    ensures
        winner == if rank == UNREACHABLE {
            None
        } else {
            first_lasting(profile@, rank, 0)
        },
        winner matches Some(journey) ==> journey.departure + rank == journey.achieved,
{
    if rank == UNREACHABLE {
        return None;
    }
    let mut mark: usize = 0;
    while mark < profile.len()
        invariant
            mark <= profile@.len(),
            rank != UNREACHABLE,
            forall|m: int| 0 <= m < profile@.len() ==> states_forward((#[trigger] profile@[m])@),
            first_lasting(profile@, rank, 0) == first_lasting(profile@, rank, mark as int),
        decreases profile.len() - mark,
    {
        assert(states_forward(profile@[mark as int]@));
        if let Some(winner) = find_winner(&profile[mark]) {
            if winner.achieved - winner.departure == rank {
                return Some(winner);
            }
        }
        mark += 1;
    }
    None
}

/// A percentile taken out of a stop's own durations finds a journey that
/// lasts exactly as long.
pub proof fn law_percentile_has_a_winner(profile: Seq<Vec<ReverseState>>, mark: int)
    requires
        0 <= mark < profile.len(),
        state_winner(profile[mark]@) is Some,
        is_forward(state_winner(profile[mark]@)),
    ensures
        ({
            let rank = duration_of(state_winner(profile[mark]@));
            first_lasting(profile, rank, 0) matches Some(winner) && winner.achieved
                - winner.departure == rank
        }),
{
    lemma_first_lasting(profile, duration_of(state_winner(profile[mark]@)), 0, mark);
}

proof fn lemma_first_lasting(
    profile: Seq<Vec<ReverseState>>,
    seconds: u32,
    from: int,
    mark: int,
)
    requires
        0 <= from <= mark < profile.len(),
        state_winner(profile[mark]@) matches Some(winner) && winner.achieved - winner.departure
            == seconds,
    ensures
        first_lasting(profile, seconds, from) matches Some(winner) && winner.achieved
            - winner.departure == seconds,
    decreases mark - from,
{
    if from < mark {
        lemma_first_lasting(profile, seconds, from + 1, mark);
    }
}

/// The durations a percentile of a stop's window ranks.
pub fn percentile_durations(profile: &Vec<Vec<ReverseState>>, marks: &Vec<u32>) -> (ranked: Vec<u32>)
    requires
        profile@.len() == marks@.len(),
        forall|m: int| 0 <= m < marks@.len() ==> states_forward((#[trigger] profile@[m])@),
    ensures
        ascending(ranked@),
        ranked@.to_multiset() == Seq::new(
            marks@.len(),
            |m: int| duration_of(state_winner(profile@[m]@)),
        ).to_multiset(),
{
    let durations = arrive_by_stop_durations(profile, marks, false);
    assert(durations@ =~= Seq::new(
        marks@.len(),
        |m: int| duration_of(state_winner(profile@[m]@)),
    ));
    ranked_durations(durations)
}

/// A state of a reverse search over several destinations, tagged by the
/// destination it arrives at.
#[derive(Debug, Clone, Copy, PartialEq, Eq, Structural)]
pub struct TaggedState {
    pub round: u16,
    pub departure: u32,
    pub achieved: u32,
    pub seed: u32,
}

pub open spec fn untagged(state: TaggedState) -> ReverseState {
    ReverseState { round: state.round, departure: state.departure, achieved: state.achieved }
}

/// The journeys to one destination that the first `count` states of a stop
/// make over an access walk.
pub open spec fn seed_arrivals(
    states: Seq<TaggedState>,
    seed: u32,
    seconds: u32,
    count: int,
) -> Seq<Arrival>
    decreases count,
{
    if count <= 0 {
        Seq::empty()
    } else {
        let before = seed_arrivals(states, seed, seconds, count - 1);
        let state = states[count - 1];
        match composed(untagged(state), seconds) {
            Some(arrival) => if state.seed == seed {
                before.push(arrival)
            } else {
                before
            },
            None => before,
        }
    }
}

/// The journeys to one destination over the first `count` access links.
pub open spec fn destination_arrivals(
    links: Seq<(u32, u32, u64)>,
    states: Seq<Vec<TaggedState>>,
    destination: u32,
    count: int,
) -> Seq<Arrival>
    decreases count,
{
    if count <= 0 {
        Seq::empty()
    } else {
        let link = links[count - 1];
        destination_arrivals(links, states, destination, count - 1) + seed_arrivals(
            states[link.0 as int]@,
            destination,
            link.1,
            states[link.0 as int]@.len() as int,
        )
    }
}

pub open spec fn tagged_forward(states: Seq<TaggedState>, seeds: nat) -> bool {
    forall|i: int|
        0 <= i < states.len() ==> (#[trigger] states[i]).departure <= states[i].achieved
            && states[i].seed < seeds
}

/// The links of the first `count` destinations, each with its destination.
pub open spec fn owned_links(links: Seq<Option<Vec<WalkedStop>>>, count: int) -> Seq<
    ((u32, u32), u32),
>
    decreases count,
{
    if count <= 0 {
        Seq::empty()
    } else {
        owned_links(links, count - 1) + offsets_of(walks_of(links[count - 1])).map_values(
            |offset: (u32, u32)| (offset, (count - 1) as u32),
        )
    }
}

/// The union of every destination's links as egress offsets, beside the
/// destination that owns each.
pub fn union_egress(links: &Vec<Option<Vec<WalkedStop>>>) -> (union: (Vec<(u32, u32)>, Vec<u32>))
    requires
        links@.len() <= u32::MAX,
    ensures
        union.0@ == owned_links(links@, links@.len() as int).map_values(
            |owned: ((u32, u32), u32)| owned.0,
        ),
        union.1@ == owned_links(links@, links@.len() as int).map_values(
            |owned: ((u32, u32), u32)| owned.1,
        ),
{
    let mut egress: Vec<(u32, u32)> = Vec::new();
    let mut owners: Vec<u32> = Vec::new();
    let ghost first = |owned: ((u32, u32), u32)| owned.0;
    let ghost second = |owned: ((u32, u32), u32)| owned.1;
    let mut destination: usize = 0;
    assert(egress@ =~= owned_links(links@, 0).map_values(first));
    assert(owners@ =~= owned_links(links@, 0).map_values(second));
    while destination < links.len()
        invariant
            destination <= links@.len() <= u32::MAX,
            first == |owned: ((u32, u32), u32)| owned.0,
            second == |owned: ((u32, u32), u32)| owned.1,
            egress@ == owned_links(links@, destination as int).map_values(first),
            owners@ == owned_links(links@, destination as int).map_values(second),
        decreases links.len() - destination,
    {
        let ghost held = owned_links(links@, destination as int);
        let ghost added = offsets_of(walks_of(links@[destination as int])).map_values(
            |offset: (u32, u32)| (offset, destination as u32),
        );
        if let Some(walks) = &links[destination] {
            let mut index: usize = 0;
            assert(held + added.subrange(0, 0) =~= held);
            while index < walks.len()
                invariant
                    index <= walks@.len(),
                    destination <= u32::MAX,
                    first == |owned: ((u32, u32), u32)| owned.0,
                    second == |owned: ((u32, u32), u32)| owned.1,
                    added == offsets_of(walks@).map_values(
                        |offset: (u32, u32)| (offset, destination as u32),
                    ),
                    egress@ == (held + added.subrange(0, index as int)).map_values(first),
                    owners@ == (held + added.subrange(0, index as int)).map_values(second),
                decreases walks.len() - index,
            {
                egress.push((walks[index].stop, walks[index].seconds));
                owners.push(destination as u32);
                index += 1;
                assert(egress@ =~= (held + added.subrange(0, index as int)).map_values(first));
                assert(owners@ =~= (held + added.subrange(0, index as int)).map_values(second));
            }
            assert(added.subrange(0, added.len() as int) =~= added);
        } else {
            assert(held + added =~= held);
        }
        assert(owned_links(links@, destination + 1) =~= held + added);
        destination += 1;
    }
    (egress, owners)
}

/// The nearest of the first `count` destinations by its own winner's
/// duration, ties to the lowest position.
pub open spec fn nearest_of(winners: Seq<Option<Arrival>>, count: int) -> Option<(u32, u32)>
    decreases count,
{
    if count <= 0 {
        None
    } else {
        let before = nearest_of(winners, count - 1);
        match winners[count - 1] {
            Some(winner) => {
                let duration = (winner.achieved - winner.departure) as u32;
                match before {
                    Some((held, _)) => if duration < held {
                        Some((duration, (count - 1) as u32))
                    } else {
                        before
                    },
                    None => Some((duration, (count - 1) as u32)),
                }
            },
            None => before,
        }
    }
}

/// The nearest destination has the least duration of all, and no earlier
/// destination has the same.
pub proof fn law_nearest_is_least(winners: Seq<Option<Arrival>>, count: int)
    requires
        0 <= count <= winners.len() <= u32::MAX,
        forall|d: int| 0 <= d < winners.len() ==> is_forward(#[trigger] winners[d]),
    ensures
        nearest_of(winners, count) is None ==> forall|d: int|
            0 <= d < count ==> #[trigger] winners[d] is None,
        nearest_of(winners, count) matches Some((duration, at)) ==> at < count
            && winners[at as int] is Some && duration == duration_of(winners[at as int])
            && forall|d: int|
            0 <= d < count && #[trigger] winners[d] is Some ==> duration_of(winners[d]) >= duration
                && (d < at ==> duration_of(winners[d]) > duration),
    decreases count,
{
    if count > 0 {
        law_nearest_is_least(winners, count - 1);
        assert(is_forward(winners[count - 1]));
    }
}

fn nearest_winner(winners: &Vec<Option<Arrival>>) -> (nearest: Option<(u32, u32)>)
    requires
        winners@.len() <= u32::MAX,
        forall|d: int| 0 <= d < winners@.len() ==> is_forward(#[trigger] winners@[d]),
    ensures
        nearest == nearest_of(winners@, winners@.len() as int),
{
    let mut nearest: Option<(u32, u32)> = None;
    let mut index: usize = 0;
    while index < winners.len()
        invariant
            index <= winners@.len() <= u32::MAX,
            forall|d: int| 0 <= d < winners@.len() ==> is_forward(#[trigger] winners@[d]),
            nearest == nearest_of(winners@, index as int),
        decreases winners.len() - index,
    {
        assert(is_forward(winners@[index as int]));
        if let Some(winner) = winners[index] {
            let duration: u32 = winner.achieved - winner.departure;
            let closer: bool = match nearest {
                Some((held, _)) => duration < held,
                None => true,
            };
            if closer {
                nearest = Some((duration, index as u32));
            }
        }
        index += 1;
    }
    nearest
}

/// Every destination's winner over a query's journeys.
pub open spec fn winners_hold(
    winners: Seq<Option<Arrival>>,
    journeys: spec_fn(u32) -> Seq<Arrival>,
) -> bool {
    forall|d: int|
        0 <= d < winners.len() ==> #[trigger] winners[d] == best_arrival(journeys(d as u32))
}

fn offer_tagged(
    winners: &mut Vec<Option<Arrival>>,
    states: &Vec<TaggedState>,
    seconds: u32,
    Ghost(offered): Ghost<spec_fn(u32) -> Seq<Arrival>>,
)
    requires
        old(winners)@.len() <= u32::MAX,
        tagged_forward(states@, old(winners)@.len()),
        winners_hold(old(winners)@, offered),
        forall|d: int| 0 <= d < old(winners)@.len() ==> is_forward(#[trigger] old(winners)@[d]),
    ensures
        final(winners)@.len() == old(winners)@.len(),
        winners_hold(
            final(winners)@,
            |d: u32| offered(d) + seed_arrivals(states@, d, seconds, states@.len() as int),
        ),
        forall|d: int| 0 <= d < final(winners)@.len() ==> is_forward(#[trigger] final(winners)@[d]),
{
    let ghost count = winners@.len();
    let mut index: usize = 0;
    proof {
        assert forall|d: int| 0 <= d < count implies #[trigger] winners@[d] == best_arrival(
            offered(d as u32) + seed_arrivals(states@, d as u32, seconds, 0),
        ) by {
            assert(offered(d as u32) + seed_arrivals(states@, d as u32, seconds, 0) =~= offered(
                d as u32,
            ));
        }
    }
    while index < states.len()
        invariant
            index <= states@.len(),
            count == winners@.len() <= u32::MAX,
            tagged_forward(states@, count),
            forall|d: int|
                0 <= d < count ==> #[trigger] winners@[d] == best_arrival(
                    offered(d as u32) + seed_arrivals(states@, d as u32, seconds, index as int),
                ),
            forall|d: int| 0 <= d < count ==> is_forward(#[trigger] winners@[d]),
        decreases states.len() - index,
    {
        let state: TaggedState = states[index];
        assert(states@[index as int].departure <= states@[index as int].achieved
            && states@[index as int].seed < count);
        let ghost before = winners@;
        if state.departure >= seconds {
            let candidate = Arrival {
                departure: state.departure - seconds,
                rides: state.round as u32,
                achieved: state.achieved,
            };
            let seed: usize = state.seed as usize;
            assert(is_forward(winners@[seed as int]));
            arrive_by_winner(&mut winners[seed], candidate);
            proof {
                lemma_best_append(
                    offered(state.seed),
                    seed_arrivals(states@, state.seed, seconds, index as int),
                    candidate,
                );
                assert(before[seed as int] == best_arrival(
                    offered(state.seed) + seed_arrivals(states@, state.seed, seconds, index as int),
                ));
                assert(winners@[seed as int] == winner_of(before[seed as int], candidate));
                assert forall|d: int| 0 <= d < count implies #[trigger] winners@[d]
                    == best_arrival(
                    offered(d as u32) + seed_arrivals(states@, d as u32, seconds, index + 1),
                ) by {
                    if d != seed {
                        assert(winners@[d] == before[d]);
                    }
                }
                assert forall|d: int| 0 <= d < count implies is_forward(#[trigger] winners@[d]) by {
                    if d != seed {
                        assert(winners@[d] == before[d]);
                        assert(is_forward(before[d]));
                    }
                }
            }
        }
        index += 1;
    }
    proof {
        let journeys = |d: u32|
            offered(d) + seed_arrivals(states@, d, seconds, states@.len() as int);
        assert forall|d: int| 0 <= d < winners@.len() implies #[trigger] winners@[d]
            == best_arrival(journeys(d as u32)) by {}
    }
}

fn no_winners(count: usize) -> (winners: Vec<Option<Arrival>>)
    ensures
        winners@.len() == count,
        forall|d: int| 0 <= d < count ==> #[trigger] winners@[d] is None,
{
    let mut winners: Vec<Option<Arrival>> = Vec::new();
    while winners.len() < count
        invariant
            winners@.len() <= count,
            forall|d: int| 0 <= d < winners@.len() ==> #[trigger] winners@[d] is None,
        decreases count - winners.len(),
    {
        winners.push(None);
    }
    winners
}

/// The journeys of an origin stop to one of several destination stops.
pub open spec fn nearest_stop_arrivals(
    states: Seq<TaggedState>,
    destinations: Seq<u32>,
    excluded: Seq<bool>,
    origin: u32,
    deadline: u32,
    seed: u32,
) -> Seq<Arrival> {
    let ridden = seed_arrivals(states, seed, 0, states.len() as int);
    if destinations[seed as int] == origin && !excluded[seed as int] {
        ridden.push(Arrival { departure: deadline, rides: 0, achieved: deadline })
    } else {
        ridden
    }
}

/// The nearest of several destination stops, each judged by its own
/// arrive-by winner: its duration and its position.
pub fn arrive_by_nearest(
    states: &Vec<TaggedState>,
    destinations: &Vec<u32>,
    excluded: &Vec<bool>,
    origin: u32,
    deadline: u32,
) -> (nearest: Option<(u32, u32)>)
    requires
        excluded@.len() == destinations@.len() <= u32::MAX,
        tagged_forward(states@, destinations@.len()),
    ensures
        nearest == nearest_of(
            Seq::new(
                destinations@.len(),
                |d: int|
                    best_arrival(
                        nearest_stop_arrivals(
                            states@,
                            destinations@,
                            excluded@,
                            origin,
                            deadline,
                            d as u32,
                        ),
                    ),
            ),
            destinations@.len() as int,
        ),
{
    let mut winners = no_winners(destinations.len());
    let ghost none = |d: u32| Seq::<Arrival>::empty();
    offer_tagged(&mut winners, states, 0, Ghost(none));
    let ghost ridden = winners@;
    proof {
        assert forall|d: int| 0 <= d < winners@.len() implies #[trigger] winners@[d]
            == best_arrival(seed_arrivals(states@, d as u32, 0, states@.len() as int)) by {
            assert(none(d as u32) + seed_arrivals(states@, d as u32, 0, states@.len() as int)
                =~= seed_arrivals(states@, d as u32, 0, states@.len() as int));
        }
    }
    let mut seed: usize = 0;
    while seed < destinations.len()
        invariant
            seed <= destinations@.len() == excluded@.len(),
            destinations@.len() <= u32::MAX,
            winners@.len() == destinations@.len(),
            forall|d: int| 0 <= d < winners@.len() ==> is_forward(#[trigger] winners@[d]),
            forall|d: int|
                seed <= d < winners@.len() ==> #[trigger] winners@[d] == best_arrival(
                    seed_arrivals(states@, d as u32, 0, states@.len() as int),
                ),
            forall|d: int|
                0 <= d < seed ==> #[trigger] winners@[d] == best_arrival(
                    nearest_stop_arrivals(
                        states@,
                        destinations@,
                        excluded@,
                        origin,
                        deadline,
                        d as u32,
                    ),
                ),
        decreases destinations.len() - seed,
    {
        let ghost before = winners@;
        if destinations[seed] == origin && !excluded[seed] {
            let stay = Arrival { departure: deadline, rides: 0, achieved: deadline };
            assert(is_forward(winners@[seed as int]));
            arrive_by_winner(&mut winners[seed], stay);
            proof {
                let ridden = seed_arrivals(states@, seed as u32, 0, states@.len() as int);
                assert(before[seed as int] == best_arrival(ridden));
                assert(ridden.push(stay).drop_last() =~= ridden);
                assert forall|d: int| 0 <= d < winners@.len() implies is_forward(
                    #[trigger] winners@[d],
                ) by {
                    if d != seed {
                        assert(winners@[d] == before[d]);
                        assert(is_forward(before[d]));
                    }
                }
                assert forall|d: int| seed < d < winners@.len() implies #[trigger] winners@[d]
                    == best_arrival(seed_arrivals(states@, d as u32, 0, states@.len() as int)) by {
                    assert(winners@[d] == before[d]);
                }
                assert forall|d: int| 0 <= d < seed implies #[trigger] winners@[d]
                    == best_arrival(
                    nearest_stop_arrivals(
                        states@,
                        destinations@,
                        excluded@,
                        origin,
                        deadline,
                        d as u32,
                    ),
                ) by {
                    assert(winners@[d] == before[d]);
                }
            }
        } else {
            assert(winners@[seed as int] == before[seed as int]);
        }
        seed += 1;
    }
    assert(winners@ =~= Seq::new(
        destinations@.len(),
        |d: int|
            best_arrival(
                nearest_stop_arrivals(
                    states@,
                    destinations@,
                    excluded@,
                    origin,
                    deadline,
                    d as u32,
                ),
            ),
    ));
    nearest_winner(&winners)
}

/// The journeys of an origin point to one of several destination points.
pub open spec fn nearest_point_arrivals(
    links: Seq<(u32, u32, u64)>,
    states: Seq<Vec<TaggedState>>,
    walk: Seq<Option<(u32, u64)>>,
    deadline: u32,
    destination: u32,
) -> Seq<Arrival> {
    destination_arrivals(links, states, destination, links.len() as int) + placed_walk(
        walk[destination as int],
        deadline,
    )
}

/// The nearest of several destination points for one origin point: its
/// duration and position, the maximum and zero where none is reachable.
pub fn arrive_by_nearest_point(
    links: &Vec<(u32, u32, u64)>,
    states: &Vec<Vec<TaggedState>>,
    walk: &Vec<Option<(u32, u64)>>,
    deadline: u32,
) -> (cell: (u32, u32))
    requires
        walk@.len() <= u32::MAX,
        links_reach(links@, states@.len()),
        forall|s: int|
            0 <= s < states@.len() ==> tagged_forward((#[trigger] states@[s])@, walk@.len()),
    ensures
        cell == (match nearest_of(
            Seq::new(
                walk@.len(),
                |d: int|
                    best_arrival(
                        nearest_point_arrivals(links@, states@, walk@, deadline, d as u32),
                    ),
            ),
            walk@.len() as int,
        ) {
            Some(nearest) => nearest,
            None => (UNREACHABLE, 0u32),
        }),
{
    let mut winners = no_winners(walk.len());
    let mut link: usize = 0;
    while link < links.len()
        invariant
            link <= links@.len(),
            walk@.len() <= u32::MAX,
            winners@.len() == walk@.len(),
            links_reach(links@, states@.len()),
            forall|s: int|
                0 <= s < states@.len() ==> tagged_forward((#[trigger] states@[s])@, walk@.len()),
            forall|d: int| 0 <= d < winners@.len() ==> is_forward(#[trigger] winners@[d]),
            forall|d: int|
                0 <= d < winners@.len() ==> #[trigger] winners@[d] == best_arrival(
                    destination_arrivals(links@, states@, d as u32, link as int),
                ),
        decreases links.len() - link,
    {
        let (stop, seconds, _): (u32, u32, u64) = links[link];
        assert(links@[link as int].0 < states@.len());
        assert(tagged_forward(states@[stop as int]@, walk@.len()));
        let ghost offered = |d: u32| destination_arrivals(links@, states@, d, link as int);
        offer_tagged(&mut winners, &states[stop as usize], seconds, Ghost(offered));
        proof {
            assert forall|d: int| 0 <= d < winners@.len() implies #[trigger] winners@[d]
                == best_arrival(destination_arrivals(links@, states@, d as u32, link + 1)) by {
                assert(destination_arrivals(links@, states@, d as u32, link + 1) == offered(
                    d as u32,
                ) + seed_arrivals(
                    states@[stop as int]@,
                    d as u32,
                    seconds,
                    states@[stop as int]@.len() as int,
                ));
            }
        }
        link += 1;
    }
    let mut point: usize = 0;
    while point < walk.len()
        invariant
            point <= walk@.len() == winners@.len(),
            walk@.len() <= u32::MAX,
            forall|d: int| 0 <= d < winners@.len() ==> is_forward(#[trigger] winners@[d]),
            forall|d: int|
                point <= d < winners@.len() ==> #[trigger] winners@[d] == best_arrival(
                    destination_arrivals(links@, states@, d as u32, links@.len() as int),
                ),
            forall|d: int|
                0 <= d < point ==> #[trigger] winners@[d] == best_arrival(
                    nearest_point_arrivals(links@, states@, walk@, deadline, d as u32),
                ),
        decreases walk.len() - point,
    {
        let ghost before = winners@;
        let ghost ridden = destination_arrivals(
            links@,
            states@,
            point as u32,
            links@.len() as int,
        );
        assert(is_forward(winners@[point as int]));
        assert(winners@[point as int] == best_arrival(ridden));
        offer_walk(&mut winners[point], walk[point], deadline, Ghost(ridden));
        proof {
            assert forall|d: int| 0 <= d < winners@.len() implies is_forward(
                #[trigger] winners@[d],
            ) by {
                if d != point {
                    assert(winners@[d] == before[d]);
                    assert(is_forward(before[d]));
                }
            }
            assert forall|d: int| point < d < winners@.len() implies #[trigger] winners@[d]
                == best_arrival(
                destination_arrivals(links@, states@, d as u32, links@.len() as int),
            ) by {
                assert(winners@[d] == before[d]);
            }
            assert forall|d: int| 0 <= d < point implies #[trigger] winners@[d] == best_arrival(
                nearest_point_arrivals(links@, states@, walk@, deadline, d as u32),
            ) by {
                assert(winners@[d] == before[d]);
            }
        }
        point += 1;
    }
    assert(winners@ =~= Seq::new(
        walk@.len(),
        |d: int|
            best_arrival(nearest_point_arrivals(links@, states@, walk@, deadline, d as u32)),
    ));
    match nearest_winner(&winners) {
        Some(nearest) => nearest,
        None => (UNREACHABLE, 0),
    }
}

/// A stop's winner is one of its states: none of them leaves later, and none
/// that leaves with it rides less, or rides as much and arrives earlier. A
/// stop without states has none.
pub proof fn law_state_winner_leaves_last(states: Seq<ReverseState>)
    ensures
        state_winner(states) is None <==> states.len() == 0,
        state_winner(states) matches Some(winner) ==> made_from(states, 0, winner) && forall|
            i: int,
        |
            0 <= i < states.len() ==> no_better(
                (#[trigger] states[i]).departure as int,
                states[i].round as int,
                states[i].achieved as int,
                (winner.departure as int, winner.rides as int, winner.achieved as int),
            ),
{
    law_stop_journeys_leave_last(states, false, 0);
}

/// The reaches list every stop that has states, once, in stop order, and no
/// other; each is its stop's journey that none leaves later than.
pub proof fn law_reaches_are_the_reached_stops(states: Seq<Vec<ReverseState>>, count: int)
    requires
        0 <= count <= states.len() <= u32::MAX,
    ensures
        ({
            let reaches = reaches_upto(states, count);
            &&& forall|s: int|
                0 <= s < count && (#[trigger] states[s])@.len() > 0 ==> exists|k: int|
                    0 <= k < reaches.len() && (#[trigger] reaches[k]).stop == s
            &&& forall|k: int|
                0 <= k < reaches.len() ==> (#[trigger] reaches[k]).stop < count && is_reach(
                    states[reaches[k].stop as int]@,
                    reaches[k],
                )
            &&& forall|j: int, k: int|
                0 <= j < k < reaches.len() ==> (#[trigger] reaches[j]).stop < (
                #[trigger] reaches[k]).stop
        }),
    decreases count,
{
    if count > 0 {
        law_reaches_are_the_reached_stops(states, count - 1);
        law_state_winner_leaves_last(states[count - 1]@);
        let before = reaches_upto(states, count - 1);
        let reaches = reaches_upto(states, count);
        assert forall|s: int|
            0 <= s < count && (#[trigger] states[s])@.len() > 0 implies exists|k: int|
            0 <= k < reaches.len() && (#[trigger] reaches[k]).stop == s by {
            if s < count - 1 {
                let k = choose|k: int| 0 <= k < before.len() && (#[trigger] before[k]).stop == s;
                assert(reaches[k].stop == s);
            } else {
                assert(reaches[reaches.len() - 1].stop == s);
            }
        }
    }
}

/// Whether a reach is one of a stop's states that none of them leaves later
/// than.
pub open spec fn is_reach(states: Seq<ReverseState>, reach: Reach) -> bool {
    &&& exists|i: int|
        0 <= i < states.len() && (#[trigger] states[i]).departure == reach.departure
            && states[i].round == reach.rides && states[i].achieved == reach.achieved
    &&& forall|i: int|
        0 <= i < states.len() ==> no_better(
            (#[trigger] states[i]).departure as int,
            states[i].round as int,
            states[i].achieved as int,
            (reach.departure as int, reach.rides as int, reach.achieved as int),
        )
}

/// The journey that stands for a duration is the first mark's that lasts as
/// long, and there is none where no mark's does.
pub proof fn law_percentiles_take_the_first_mark(
    profile: Seq<Vec<ReverseState>>,
    seconds: u32,
    mark: int,
)
    requires
        0 <= mark <= profile.len(),
        forall|m: int|
            0 <= m < mark ==> (state_winner((#[trigger] profile[m])@) matches Some(winner)
                ==> winner.departure + seconds != winner.achieved),
        mark < profile.len() ==> (state_winner(profile[mark]@) matches Some(winner)
            && winner.departure + seconds == winner.achieved),
    ensures
        mark < profile.len() ==> first_lasting(profile, seconds, 0) == state_winner(
            profile[mark]@,
        ),
        mark == profile.len() ==> first_lasting(profile, seconds, 0) is None,
{
    lemma_first_mark(profile, seconds, 0, mark);
}

proof fn lemma_first_mark(
    profile: Seq<Vec<ReverseState>>,
    seconds: u32,
    from: int,
    mark: int,
)
    requires
        0 <= from <= mark <= profile.len(),
        forall|m: int|
            from <= m < mark ==> (state_winner((#[trigger] profile[m])@) matches Some(winner)
                ==> winner.departure + seconds != winner.achieved),
        mark < profile.len() ==> (state_winner(profile[mark]@) matches Some(winner)
            && winner.departure + seconds == winner.achieved),
    ensures
        first_lasting(profile, seconds, from) == if mark < profile.len() {
            state_winner(profile[mark]@)
        } else {
            None
        },
    decreases mark - from,
{
    if from < mark {
        assert(state_winner(profile[from]@) matches Some(winner) ==> winner.departure + seconds
            != winner.achieved);
        lemma_first_mark(profile, seconds, from + 1, mark);
    }
}

/// Whether a journey is a state meant for one destination with a walk before
/// it.
pub open spec fn made_for(
    states: Seq<TaggedState>,
    seed: u32,
    seconds: u32,
    journey: Arrival,
) -> bool {
    exists|i: int|
        0 <= i < states.len() && (#[trigger] states[i]).seed == seed && states[i].departure
            - seconds == journey.departure && states[i].round == journey.rides
            && states[i].achieved == journey.achieved
}

proof fn lemma_seed_arrivals(states: Seq<TaggedState>, seed: u32, seconds: u32, count: int)
    requires
        0 <= count <= states.len(),
    ensures
        forall|i: int|
            0 <= i < count && (#[trigger] states[i]).seed == seed && states[i].departure >= seconds
                ==> seed_arrivals(states, seed, seconds, count).contains(
                Arrival {
                    departure: (states[i].departure - seconds) as u32,
                    rides: states[i].round as u32,
                    achieved: states[i].achieved,
                },
            ),
        forall|k: int|
            0 <= k < seed_arrivals(states, seed, seconds, count).len() ==> made_for(
                states,
                seed,
                seconds,
                #[trigger] seed_arrivals(states, seed, seconds, count)[k],
            ),
    decreases count,
{
    if count > 0 {
        lemma_seed_arrivals(states, seed, seconds, count - 1);
        let before = seed_arrivals(states, seed, seconds, count - 1);
        let after = seed_arrivals(states, seed, seconds, count);
        assert forall|i: int|
            0 <= i < count && (#[trigger] states[i]).seed == seed && states[i].departure
                >= seconds implies after.contains(
            Arrival {
                departure: (states[i].departure - seconds) as u32,
                rides: states[i].round as u32,
                achieved: states[i].achieved,
            },
        ) by {
            let arrival = Arrival {
                departure: (states[i].departure - seconds) as u32,
                rides: states[i].round as u32,
                achieved: states[i].achieved,
            };
            if i < count - 1 {
                assert(before.contains(arrival));
                let at = choose|at: int| 0 <= at < before.len() && before[at] == arrival;
                assert(after[at] == arrival);
            } else {
                assert(after[after.len() - 1] == arrival);
            }
        }
        assert forall|k: int| 0 <= k < after.len() implies made_for(
            states,
            seed,
            seconds,
            #[trigger] after[k],
        ) by {
            if k < before.len() {
                assert(after[k] == before[k]);
            } else {
                assert(states[count - 1].seed == seed);
            }
        }
    }
}

proof fn lemma_destination_arrivals(
    links: Seq<(u32, u32, u64)>,
    states: Seq<Vec<TaggedState>>,
    destination: u32,
    count: int,
)
    requires
        0 <= count <= links.len(),
    ensures
        forall|l: int, i: int|
            0 <= l < count && 0 <= i < states[links[l].0 as int]@.len() && (
            #[trigger] states[links[l].0 as int]@[i]).seed == destination
                && states[links[l].0 as int]@[i].departure >= links[l].1 ==> destination_arrivals(
                links,
                states,
                destination,
                count,
            ).contains(
                Arrival {
                    departure: (states[links[l].0 as int]@[i].departure - links[l].1) as u32,
                    rides: states[links[l].0 as int]@[i].round as u32,
                    achieved: states[links[l].0 as int]@[i].achieved,
                },
            ),
        forall|k: int|
            0 <= k < destination_arrivals(links, states, destination, count).len() ==> exists|
                l: int,
            |
                0 <= l < count && made_for(
                    states[(#[trigger] links[l]).0 as int]@,
                    destination,
                    links[l].1,
                    #[trigger] destination_arrivals(links, states, destination, count)[k],
                ),
    decreases count,
{
    if count > 0 {
        lemma_destination_arrivals(links, states, destination, count - 1);
        let (stop, seconds, _) = links[count - 1];
        let own = states[stop as int]@;
        lemma_seed_arrivals(own, destination, seconds, own.len() as int);
        let before = destination_arrivals(links, states, destination, count - 1);
        let made = seed_arrivals(own, destination, seconds, own.len() as int);
        let after = destination_arrivals(links, states, destination, count);
        assert forall|l: int, i: int|
            0 <= l < count && 0 <= i < states[links[l].0 as int]@.len() && (
            #[trigger] states[links[l].0 as int]@[i]).seed == destination
                && states[links[l].0 as int]@[i].departure >= links[l].1 implies after.contains(
            Arrival {
                departure: (states[links[l].0 as int]@[i].departure - links[l].1) as u32,
                rides: states[links[l].0 as int]@[i].round as u32,
                achieved: states[links[l].0 as int]@[i].achieved,
            },
        ) by {
            let state = states[links[l].0 as int]@[i];
            let arrival = Arrival {
                departure: (state.departure - links[l].1) as u32,
                rides: state.round as u32,
                achieved: state.achieved,
            };
            if l < count - 1 {
                assert(before.contains(arrival));
                let at = choose|at: int| 0 <= at < before.len() && before[at] == arrival;
                assert(after[at] == arrival);
            } else {
                assert(own[i] == state);
                assert(made.contains(arrival));
                let at = choose|at: int| 0 <= at < made.len() && made[at] == arrival;
                assert(after[before.len() + at] == arrival);
            }
        }
        assert forall|k: int| 0 <= k < after.len() implies exists|l: int|
            0 <= l < count && made_for(
                states[(#[trigger] links[l]).0 as int]@,
                destination,
                links[l].1,
                #[trigger] after[k],
            ) by {
            if k < before.len() {
                assert(after[k] == before[k]);
                let l = choose|l: int|
                    0 <= l < count - 1 && made_for(
                        states[(#[trigger] links[l]).0 as int]@,
                        destination,
                        links[l].1,
                        before[k],
                    );
                assert(made_for(states[links[l].0 as int]@, destination, links[l].1, after[k]));
            } else {
                assert(after[k] == made[k - before.len()]);
                assert(made_for(
                    states[links[count - 1].0 as int]@,
                    destination,
                    links[count - 1].1,
                    after[k],
                ));
            }
        }
    }
}

/// The journey that stands for one destination point is made of states meant
/// for that destination, or is the walk to it; none of these leaves later.
pub proof fn law_destination_journeys_leave_last(
    links: Seq<(u32, u32, u64)>,
    states: Seq<Vec<TaggedState>>,
    walk: Seq<Option<(u32, u64)>>,
    deadline: u32,
    destination: u32,
)
    ensures
        ({
            let best = best_arrival(
                nearest_point_arrivals(links, states, walk, deadline, destination),
            );
            &&& forall|l: int, i: int|
                0 <= l < links.len() && 0 <= i < states[links[l].0 as int]@.len() && (
                #[trigger] states[links[l].0 as int]@[i]).seed == destination
                    && states[links[l].0 as int]@[i].departure >= links[l].1 ==> best is Some
                    && no_better(
                    states[links[l].0 as int]@[i].departure - links[l].1,
                    states[links[l].0 as int]@[i].round as int,
                    states[links[l].0 as int]@[i].achieved as int,
                    (best->0.departure as int, best->0.rides as int, best->0.achieved as int),
                )
            &&& walk[destination as int] matches Some((seconds, _)) ==> (seconds <= deadline
                ==> best is Some && no_better(
                deadline - seconds,
                0,
                deadline as int,
                (best->0.departure as int, best->0.rides as int, best->0.achieved as int),
            ))
            &&& best matches Some(winner) ==> {
                ||| exists|l: int|
                    0 <= l < links.len() && made_for(
                        states[(#[trigger] links[l]).0 as int]@,
                        destination,
                        links[l].1,
                        winner,
                    )
                ||| walk[destination as int] matches Some((seconds, _)) && winner.departure
                    == deadline - seconds && winner.rides == 0 && winner.achieved == deadline
            }
        }),
{
    let ridden = destination_arrivals(links, states, destination, links.len() as int);
    let placed = placed_walk(walk[destination as int], deadline);
    let all = nearest_point_arrivals(links, states, walk, deadline, destination);
    law_winner_leaves_last(all);
    lemma_destination_arrivals(links, states, destination, links.len() as int);
    let best = best_arrival(all);
    assert forall|l: int, i: int|
        0 <= l < links.len() && 0 <= i < states[links[l].0 as int]@.len() && (
        #[trigger] states[links[l].0 as int]@[i]).seed == destination
            && states[links[l].0 as int]@[i].departure >= links[l].1 implies best is Some
        && no_better(
        states[links[l].0 as int]@[i].departure - links[l].1,
        states[links[l].0 as int]@[i].round as int,
        states[links[l].0 as int]@[i].achieved as int,
        (best->0.departure as int, best->0.rides as int, best->0.achieved as int),
    ) by {
        let state = states[links[l].0 as int]@[i];
        let arrival = Arrival {
            departure: (state.departure - links[l].1) as u32,
            rides: state.round as u32,
            achieved: state.achieved,
        };
        assert(ridden.contains(arrival));
        let at = choose|at: int| 0 <= at < ridden.len() && ridden[at] == arrival;
        assert(all[at] == arrival);
    }
    if let Some((seconds, _)) = walk[destination as int] {
        if seconds <= deadline {
            assert(all[ridden.len() as int] == placed[0]);
        }
    }
    if let Some(winner) = best {
        let k = choose|k: int| 0 <= k < all.len() && all[k] == winner;
        if k < ridden.len() {
            assert(ridden[k] == winner);
        } else {
            assert(all[k] == placed[k - ridden.len()]);
        }
    }
}

/// The journey that stands for one destination stop is a state meant for it,
/// or staying put where it is the origin and admitted; none of these leaves
/// later.
pub proof fn law_destination_stops_leave_last(
    states: Seq<TaggedState>,
    destinations: Seq<u32>,
    excluded: Seq<bool>,
    origin: u32,
    deadline: u32,
    seed: u32,
)
    ensures
        ({
            let best = best_arrival(
                nearest_stop_arrivals(states, destinations, excluded, origin, deadline, seed),
            );
            let stays = destinations[seed as int] == origin && !excluded[seed as int];
            &&& forall|i: int|
                0 <= i < states.len() && (#[trigger] states[i]).seed == seed ==> best is Some
                    && no_better(
                    states[i].departure as int,
                    states[i].round as int,
                    states[i].achieved as int,
                    (best->0.departure as int, best->0.rides as int, best->0.achieved as int),
                )
            &&& stays ==> best is Some && no_better(
                deadline as int,
                0,
                deadline as int,
                (best->0.departure as int, best->0.rides as int, best->0.achieved as int),
            )
            &&& best matches Some(winner) ==> made_for(states, seed, 0, winner) || stays
                && winner.departure == deadline && winner.rides == 0 && winner.achieved == deadline
        }),
{
    let ridden = seed_arrivals(states, seed, 0, states.len() as int);
    let all = nearest_stop_arrivals(states, destinations, excluded, origin, deadline, seed);
    law_winner_leaves_last(all);
    lemma_seed_arrivals(states, seed, 0, states.len() as int);
    let best = best_arrival(all);
    assert forall|i: int|
        0 <= i < states.len() && (#[trigger] states[i]).seed == seed implies best is Some
        && no_better(
        states[i].departure as int,
        states[i].round as int,
        states[i].achieved as int,
        (best->0.departure as int, best->0.rides as int, best->0.achieved as int),
    ) by {
        let arrival = Arrival {
            departure: (states[i].departure - 0) as u32,
            rides: states[i].round as u32,
            achieved: states[i].achieved,
        };
        assert(ridden.contains(arrival));
        let at = choose|at: int| 0 <= at < ridden.len() && ridden[at] == arrival;
        assert(all[at] == arrival);
    }
    if destinations[seed as int] == origin && !excluded[seed as int] {
        assert(all[ridden.len() as int].departure == deadline);
    }
    if let Some(winner) = best {
        let k = choose|k: int| 0 <= k < all.len() && all[k] == winner;
        if k < ridden.len() {
            assert(ridden[k] == winner);
        }
    }
}

/// The nearest destination is one that a journey reaches, with that journey's
/// duration; no other's journey lasts less, and no earlier one's as little.
/// There is none only where no destination is reached.
pub proof fn law_nearest_lasts_least(winners: Seq<Option<Arrival>>, count: int)
    requires
        0 <= count <= winners.len() <= u32::MAX,
        forall|d: int|
            0 <= d < winners.len() ==> (#[trigger] winners[d] matches Some(winner)
                ==> winner.departure <= winner.achieved),
    ensures
        nearest_of(winners, count) is None <==> forall|d: int|
            0 <= d < count ==> #[trigger] winners[d] is None,
        nearest_of(winners, count) matches Some((seconds, at)) ==> {
            &&& at < count
            &&& winners[at as int] matches Some(winner) && winner.departure + seconds
                == winner.achieved
            &&& forall|d: int|
                0 <= d < count && #[trigger] winners[d] is Some ==> {
                    &&& winners[d]->0.achieved - winners[d]->0.departure >= seconds
                    &&& d < at ==> winners[d]->0.achieved - winners[d]->0.departure > seconds
                }
        },
    decreases count,
{
    if count > 0 {
        law_nearest_lasts_least(winners, count - 1);
        assert(winners[count - 1] matches Some(winner) ==> winner.departure <= winner.achieved);
        if nearest_of(winners, count) is None {
            assert(nearest_of(winners, count - 1) is None);
        } else if nearest_of(winners, count - 1) is None {
            assert(winners[count - 1] is Some);
        } else {
            let at = (nearest_of(winners, count - 1)->0).1;
            assert(winners[at as int] is Some);
        }
    }
}

/// The union of several destinations' links holds every link of each beside
/// its own destination, and nothing else, one destination after the other.
pub proof fn law_union_keeps_owners(links: Seq<Option<Vec<WalkedStop>>>, count: int)
    requires
        0 <= count <= links.len() <= u32::MAX,
    ensures
        ({
            let owned = owned_links(links, count);
            &&& forall|d: int, w: int|
                0 <= d < count && links[d] is Some && 0 <= w < links[d]->0@.len()
                    ==> owned.contains(
                    (
                        ((#[trigger] links[d]->0@[w]).stop, links[d]->0@[w].seconds),
                        d as u32,
                    ),
                )
            &&& forall|k: int|
                0 <= k < owned.len() ==> (#[trigger] owned[k]).1 < count && linked(
                    links[owned[k].1 as int],
                    owned[k].0,
                )
            &&& forall|j: int, k: int|
                0 <= j < k < owned.len() ==> (#[trigger] owned[j]).1 <= (#[trigger] owned[k]).1
        }),
    decreases count,
{
    if count > 0 {
        law_union_keeps_owners(links, count - 1);
        let before = owned_links(links, count - 1);
        let own = offsets_of(walks_of(links[count - 1]));
        let owned = owned_links(links, count);
        assert forall|d: int, w: int|
            0 <= d < count && links[d] is Some && 0 <= w
                < links[d]->0@.len() implies owned.contains(
            (((#[trigger] links[d]->0@[w]).stop, links[d]->0@[w].seconds), d as u32),
        ) by {
            let entry = ((links[d]->0@[w].stop, links[d]->0@[w].seconds), d as u32);
            if d < count - 1 {
                assert(before.contains(entry));
                let at = choose|at: int| 0 <= at < before.len() && before[at] == entry;
                assert(owned[at] == entry);
            } else {
                assert(own[w] == entry.0);
                assert(owned[before.len() + w] == entry);
            }
        }
        assert forall|k: int| 0 <= k < owned.len() implies (#[trigger] owned[k]).1 < count
            && linked(links[owned[k].1 as int], owned[k].0) by {
            if k < before.len() {
                assert(owned[k] == before[k]);
            } else {
                let w = k - before.len();
                assert(owned[k].0 == own[w]);
                assert(links[count - 1]->0@[w].stop == own[w].0);
            }
        }
        assert forall|j: int, k: int| 0 <= j < k < owned.len() implies (#[trigger] owned[j]).1 <= (
        #[trigger] owned[k]).1 by {
            if k < before.len() {
                assert(owned[j] == before[j] && owned[k] == before[k]);
            } else if j < before.len() {
                assert(owned[j] == before[j]);
            }
        }
    }
}

/// Whether a link walks to a stop in so many seconds.
pub open spec fn linked(link: Option<Vec<WalkedStop>>, offset: (u32, u32)) -> bool {
    link is Some && exists|w: int|
        0 <= w < link->0@.len() && (#[trigger] link->0@[w]).stop == offset.0
            && link->0@[w].seconds == offset.1
}

} // verus!
