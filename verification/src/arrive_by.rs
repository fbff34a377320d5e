//! Arrive-by answers out of reverse searches: the journey that leaves last
//! and still arrives by the deadline.

use crate::rows::{lemma_stacked_push, stacked};
use crate::time_rows::UNREACHABLE;
use vstd::prelude::*;

verus! {

/// A state of a reverse search at a stop: its round, the departure there,
/// and the arrival it achieves.
#[derive(Debug, Clone, Copy, PartialEq, Eq, Structural)]
pub struct ReverseState {
    pub round: u16,
    pub departure: u32,
    pub achieved: u32,
}

/// A complete journey: departure, rides, achieved arrival.
#[derive(Debug, Clone, Copy, PartialEq, Eq, Structural)]
pub struct Arrival {
    pub departure: u32,
    pub rides: u32,
    pub achieved: u32,
}

/// The complete-journey order: the latest departure, then the fewest rides,
/// then the earliest arrival.
pub open spec fn leaves_better(candidate: Arrival, held: Arrival) -> bool {
    ||| candidate.departure > held.departure
    ||| candidate.departure == held.departure && candidate.rides < held.rides
    ||| candidate.departure == held.departure && candidate.rides == held.rides
        && candidate.achieved < held.achieved
}

pub open spec fn winner_of(best: Option<Arrival>, candidate: Arrival) -> Option<Arrival> {
    match best {
        None => Some(candidate),
        Some(held) => if leaves_better(candidate, held) {
            Some(candidate)
        } else {
            Some(held)
        },
    }
}

/// Offers a candidate to the best journey so far.
pub fn arrive_by_winner(best: &mut Option<Arrival>, candidate: Arrival)
    ensures
        *final(best) == winner_of(*old(best), candidate),
{
    let wins: bool = match *best {
        None => true,
        Some(held) => candidate.departure > held.departure || (candidate.departure
            == held.departure && (candidate.rides < held.rides || (candidate.rides == held.rides
            && candidate.achieved < held.achieved))),
    };
    if wins {
        *best = Some(candidate);
    }
}

/// The winner of candidates offered in order.
pub open spec fn best_arrival(candidates: Seq<Arrival>) -> Option<Arrival>
    decreases candidates.len(),
{
    if candidates.len() == 0 {
        None
    } else {
        winner_of(best_arrival(candidates.drop_last()), candidates.last())
    }
}

/// The winner is one of the candidates, and none leaves better; so it does
/// not depend on the order they were offered in.
pub proof fn law_best_arrival(candidates: Seq<Arrival>)
    ensures
        candidates.len() == 0 <==> best_arrival(candidates) is None,
        best_arrival(candidates) matches Some(winner) ==> candidates.contains(winner) && forall|
            i: int,
        |
            0 <= i < candidates.len() ==> !leaves_better(#[trigger] candidates[i], winner),
    decreases candidates.len(),
{
    if candidates.len() > 0 {
        let before = candidates.drop_last();
        law_best_arrival(before);
        let winner = best_arrival(candidates)->0;
        if winner == candidates.last() {
            assert(candidates[candidates.len() - 1] == winner);
        } else {
            let at = choose|i: int| 0 <= i < before.len() && before[i] == winner;
            assert(candidates[at] == winner);
        }
        assert forall|i: int| 0 <= i < candidates.len() implies !leaves_better(
            #[trigger] candidates[i],
            winner,
        ) by {
            if i < candidates.len() - 1 {
                assert(before[i] == candidates[i]);
            }
        }
    }
}

/// A state reached over an access walk: it leaves that much earlier; none
/// before the day's start.
pub open spec fn composed(state: ReverseState, seconds: u32) -> Option<Arrival> {
    if state.departure >= seconds {
        Some(
            Arrival {
                departure: (state.departure - seconds) as u32,
                rides: state.round as u32,
                achieved: state.achieved,
            },
        )
    } else {
        None
    }
}

/// The journeys that the first `count` states of a stop make over an access
/// walk.
pub open spec fn state_arrivals(states: Seq<ReverseState>, seconds: u32, count: int) -> Seq<Arrival>
    decreases count,
{
    if count <= 0 {
        Seq::empty()
    } else {
        let before = state_arrivals(states, seconds, count - 1);
        match composed(states[count - 1], seconds) {
            Some(arrival) => before.push(arrival),
            None => before,
        }
    }
}

/// The direct walk placed to arrive exactly at the deadline.
pub open spec fn placed_walk(walk: Option<(u32, u64)>, deadline: u32) -> Seq<Arrival> {
    match walk {
        Some((seconds, _)) => if deadline >= seconds {
            seq![
                Arrival { departure: (deadline - seconds) as u32, rides: 0, achieved: deadline },
            ]
        } else {
            Seq::empty()
        },
        None => Seq::empty(),
    }
}

/// The duration of a winner; unreachable without one.
pub open spec fn duration_of(best: Option<Arrival>) -> u32 {
    match best {
        Some(arrival) => (arrival.achieved - arrival.departure) as u32,
        None => UNREACHABLE,
    }
}

/// Whether states achieve their arrivals no earlier than they depart.
pub open spec fn states_forward(states: Seq<ReverseState>) -> bool {
    forall|i: int|
        0 <= i < states.len() ==> (#[trigger] states[i]).departure <= states[i].achieved
}

pub open spec fn is_forward(best: Option<Arrival>) -> bool {
    best matches Some(arrival) ==> arrival.departure <= arrival.achieved
}

pub proof fn lemma_best_append(first: Seq<Arrival>, more: Seq<Arrival>, candidate: Arrival)
    ensures
        best_arrival(first + more.push(candidate)) == winner_of(
            best_arrival(first + more),
            candidate,
        ),
{
    assert((first + more.push(candidate)).drop_last() =~= first + more);
}

/// Offers every state of a stop over an access walk.
pub(crate) fn offer_states(
    best: &mut Option<Arrival>,
    states: &Vec<ReverseState>,
    seconds: u32,
    Ghost(offered): Ghost<Seq<Arrival>>,
)
    requires
        *old(best) == best_arrival(offered),
        is_forward(*old(best)),
        states_forward(states@),
    ensures
        *final(best) == best_arrival(
            offered + state_arrivals(states@, seconds, states@.len() as int),
        ),
        is_forward(*final(best)),
{
    let mut index: usize = 0;
    assert(offered + state_arrivals(states@, seconds, 0) =~= offered);
    while index < states.len()
        invariant
            index <= states@.len(),
            states_forward(states@),
            is_forward(*best),
            *best == best_arrival(offered + state_arrivals(states@, seconds, index as int)),
        decreases states.len() - index,
    {
        let state: ReverseState = states[index];
        assert(states@[index as int].departure <= states@[index as int].achieved);
        if state.departure >= seconds {
            let candidate = Arrival {
                departure: state.departure - seconds,
                rides: state.round as u32,
                achieved: state.achieved,
            };
            proof {
                lemma_best_append(
                    offered,
                    state_arrivals(states@, seconds, index as int),
                    candidate,
                );
            }
            arrive_by_winner(best, candidate);
        }
        index += 1;
    }
}

fn exec_duration(best: Option<Arrival>) -> (seconds: u32)
    requires
        is_forward(best),
    ensures
        seconds == duration_of(best),
{
    match best {
        Some(arrival) => arrival.achieved - arrival.departure,
        None => UNREACHABLE,
    }
}

/// The journeys of a stop pair: the origin's states, and staying put where
/// origin and destination are one admitted stop.
pub open spec fn stop_arrivals(states: Seq<ReverseState>, same_stop: bool, deadline: u32) -> Seq<
    Arrival,
> {
    let ridden = state_arrivals(states, 0, states.len() as int);
    if same_stop {
        ridden.push(Arrival { departure: deadline, rides: 0, achieved: deadline })
    } else {
        ridden
    }
}

/// An arrive-by stop cell: the winner's own duration.
pub fn arrive_by_stop_cell(states: &Vec<ReverseState>, same_stop: bool, deadline: u32) -> (seconds:
    u32)
    requires
        states_forward(states@),
    ensures
        seconds == duration_of(best_arrival(stop_arrivals(states@, same_stop, deadline))),
{
    let mut best: Option<Arrival> = None;
    offer_states(&mut best, states, 0, Ghost(Seq::empty()));
    let ghost ridden = state_arrivals(states@, 0, states@.len() as int);
    assert(Seq::<Arrival>::empty() + ridden =~= ridden);
    if same_stop {
        let stay = Arrival { departure: deadline, rides: 0, achieved: deadline };
        assert(ridden.push(stay).drop_last() =~= ridden);
        arrive_by_winner(&mut best, stay);
    }
    exec_duration(best)
}

/// The journeys of a point pair over the first `count` access links.
pub open spec fn link_arrivals(
    links: Seq<(u32, u32, u64)>,
    states: Seq<Vec<ReverseState>>,
    count: int,
) -> Seq<Arrival>
    decreases count,
{
    if count <= 0 {
        Seq::empty()
    } else {
        let link = links[count - 1];
        link_arrivals(links, states, count - 1) + state_arrivals(
            states[link.0 as int]@,
            link.1,
            states[link.0 as int]@.len() as int,
        )
    }
}

pub open spec fn point_arrivals(
    links: Seq<(u32, u32, u64)>,
    states: Seq<Vec<ReverseState>>,
    walk: Option<(u32, u64)>,
    deadline: u32,
) -> Seq<Arrival> {
    link_arrivals(links, states, links.len() as int) + placed_walk(walk, deadline)
}

/// An arrive-by point cell: the origin's access links composed over the
/// reverse states, beside the direct walk; the winner's own duration.
pub fn arrive_by_point_cell(
    links: &Vec<(u32, u32, u64)>,
    states: &Vec<Vec<ReverseState>>,
    walk: Option<(u32, u64)>,
    deadline: u32,
) -> (seconds: u32)
    requires
        forall|l: int| 0 <= l < links@.len() ==> (#[trigger] links@[l]).0 < states@.len(),
        forall|s: int| 0 <= s < states@.len() ==> states_forward((#[trigger] states@[s])@),
    ensures
        seconds == duration_of(
            best_arrival(point_arrivals(links@, states@, walk, deadline)),
        ),
{
    let mut best: Option<Arrival> = None;
    let mut index: usize = 0;
    while index < links.len()
        invariant
            index <= links@.len(),
            forall|l: int| 0 <= l < links@.len() ==> (#[trigger] links@[l]).0 < states@.len(),
            forall|s: int| 0 <= s < states@.len() ==> states_forward((#[trigger] states@[s])@),
            is_forward(best),
            best == best_arrival(link_arrivals(links@, states@, index as int)),
        decreases links.len() - index,
    {
        let (stop, seconds, _): (u32, u32, u64) = links[index];
        assert(links@[index as int].0 < states@.len());
        assert(states_forward(states@[stop as int]@));
        offer_states(
            &mut best,
            &states[stop as usize],
            seconds,
            Ghost(link_arrivals(links@, states@, index as int)),
        );
        index += 1;
    }
    let ghost ridden = link_arrivals(links@, states@, links@.len() as int);
    offer_walk(&mut best, walk, deadline, Ghost(ridden));
    exec_duration(best)
}

pub(crate) fn offer_walk(
    best: &mut Option<Arrival>,
    walk: Option<(u32, u64)>,
    deadline: u32,
    Ghost(offered): Ghost<Seq<Arrival>>,
)
    requires
        *old(best) == best_arrival(offered),
        is_forward(*old(best)),
    ensures
        *final(best) == best_arrival(offered + placed_walk(walk, deadline)),
        is_forward(*final(best)),
{
    assert(offered + Seq::<Arrival>::empty() =~= offered);
    if let Some((seconds, _)) = walk {
        if deadline >= seconds {
            let candidate = Arrival {
                departure: deadline - seconds,
                rides: 0,
                achieved: deadline,
            };
            proof {
                lemma_best_append(offered, Seq::empty(), candidate);
                assert(Seq::<Arrival>::empty().push(candidate) =~= placed_walk(walk, deadline));
            }
            arrive_by_winner(best, candidate);
        }
    }
}

/// The journeys at one deadline mark over the first `count` access links,
/// from each link's per-mark states.
pub open spec fn mark_arrivals(
    profiles: Seq<(u32, Vec<Vec<ReverseState>>)>,
    mark: int,
    count: int,
) -> Seq<Arrival>
    decreases count,
{
    if count <= 0 {
        Seq::empty()
    } else {
        let states = profiles[count - 1].1@[mark]@;
        mark_arrivals(profiles, mark, count - 1) + state_arrivals(
            states,
            profiles[count - 1].0,
            states.len() as int,
        )
    }
}

/// The duration at one deadline mark.
pub open spec fn mark_duration(
    profiles: Seq<(u32, Vec<Vec<ReverseState>>)>,
    marks: Seq<u32>,
    walk: Option<(u32, u64)>,
    mark: int,
) -> u32 {
    duration_of(
        best_arrival(
            mark_arrivals(profiles, mark, profiles.len() as int) + placed_walk(walk, marks[mark]),
        ),
    )
}

pub open spec fn profile_wf(profile: (u32, Vec<Vec<ReverseState>>), marks: nat) -> bool {
    &&& profile.1@.len() == marks
    &&& forall|m: int| 0 <= m < marks ==> states_forward((#[trigger] profile.1@[m])@)
}

/// The winner's duration at every deadline mark of a window, from the
/// per-mark states of each access link (its walk seconds first) and the
/// direct walk.
pub fn arrive_by_durations(
    profiles: &Vec<(u32, Vec<Vec<ReverseState>>)>,
    marks: &Vec<u32>,
    walk: Option<(u32, u64)>,
) -> (durations: Vec<u32>)
    requires
        forall|p: int|
            0 <= p < profiles@.len() ==> profile_wf(#[trigger] profiles@[p], marks@.len()),
    ensures
        durations@ == Seq::new(
            marks@.len(),
            |mark: int| mark_duration(profiles@, marks@, walk, mark),
        ),
{
    let mut durations: Vec<u32> = Vec::new();
    let mut mark: usize = 0;
    while mark < marks.len()
        invariant
            mark <= marks@.len(),
            forall|p: int|
                0 <= p < profiles@.len() ==> profile_wf(#[trigger] profiles@[p], marks@.len()),
            durations@ == Seq::new(
                mark as nat,
                |m: int| mark_duration(profiles@, marks@, walk, m),
            ),
        decreases marks.len() - mark,
    {
        let mut best: Option<Arrival> = None;
        let mut index: usize = 0;
        while index < profiles.len()
            invariant
                index <= profiles@.len(),
                mark < marks@.len(),
                forall|p: int|
                    0 <= p < profiles@.len() ==> profile_wf(#[trigger] profiles@[p], marks@.len()),
                is_forward(best),
                best == best_arrival(mark_arrivals(profiles@, mark as int, index as int)),
            decreases profiles.len() - index,
        {
            assert(profile_wf(profiles@[index as int], marks@.len()));
            assert(states_forward(profiles@[index as int].1@[mark as int]@));
            offer_states(
                &mut best,
                &profiles[index].1[mark],
                profiles[index].0,
                Ghost(mark_arrivals(profiles@, mark as int, index as int)),
            );
            index += 1;
        }
        offer_walk(
            &mut best,
            walk,
            marks[mark],
            Ghost(mark_arrivals(profiles@, mark as int, profiles@.len() as int)),
        );
        durations.push(exec_duration(best));
        mark += 1;
        assert(durations@ =~= Seq::new(
            mark as nat,
            |m: int| mark_duration(profiles@, marks@, walk, m),
        ));
    }
    durations
}

/// The winner's duration at every deadline mark of a stop pair's window.
pub fn arrive_by_stop_durations(
    profile: &Vec<Vec<ReverseState>>,
    marks: &Vec<u32>,
    same_stop: bool,
) -> (durations: Vec<u32>)
    requires
        profile@.len() == marks@.len(),
        forall|m: int| 0 <= m < marks@.len() ==> states_forward((#[trigger] profile@[m])@),
    ensures
        durations@ == Seq::new(
            marks@.len(),
            |m: int|
                duration_of(best_arrival(stop_arrivals(profile@[m]@, same_stop, marks@[m]))),
        ),
{
    let mut durations: Vec<u32> = Vec::new();
    let mut mark: usize = 0;
    while mark < marks.len()
        invariant
            mark <= marks@.len() == profile@.len(),
            forall|m: int| 0 <= m < marks@.len() ==> states_forward((#[trigger] profile@[m])@),
            durations@ == Seq::new(
                mark as nat,
                |m: int|
                    duration_of(best_arrival(stop_arrivals(profile@[m]@, same_stop, marks@[m]))),
            ),
        decreases marks.len() - mark,
    {
        assert(states_forward(profile@[mark as int]@));
        durations.push(arrive_by_stop_cell(&profile[mark], same_stop, marks[mark]));
        mark += 1;
        assert(durations@ =~= Seq::new(
            mark as nat,
            |m: int|
                duration_of(best_arrival(stop_arrivals(profile@[m]@, same_stop, marks@[m]))),
        ));
    }
    durations
}

/// A complete journey and the access stop it composed through.
#[derive(Debug, Clone, Copy, PartialEq, Eq, Structural)]
pub struct AccessArrival {
    pub departure: u32,
    pub rides: u32,
    pub achieved: u32,
    pub stop: u32,
}

/// The complete-journey order, full ties broken by the stop index, so the
/// elected access stop — and the facility priced through it — is
/// deterministic.
pub open spec fn access_better(candidate: AccessArrival, held: AccessArrival) -> bool {
    ||| candidate.departure > held.departure
    ||| candidate.departure == held.departure && candidate.rides < held.rides
    ||| candidate.departure == held.departure && candidate.rides == held.rides
        && candidate.achieved < held.achieved
    ||| candidate.departure == held.departure && candidate.rides == held.rides
        && candidate.achieved == held.achieved && candidate.stop < held.stop
}

pub open spec fn best_access(candidates: Seq<AccessArrival>) -> Option<AccessArrival>
    decreases candidates.len(),
{
    if candidates.len() == 0 {
        None
    } else {
        match best_access(candidates.drop_last()) {
            None => Some(candidates.last()),
            Some(held) => if access_better(candidates.last(), held) {
                Some(candidates.last())
            } else {
                Some(held)
            },
        }
    }
}

/// The elected journey and stop depend on the set of candidates alone: any
/// two equal sets, in whatever order, elect the same.
pub proof fn law_access_election_is_deterministic(
    candidates: Seq<AccessArrival>,
    reordered: Seq<AccessArrival>,
)
    requires
        candidates.to_set() =~= reordered.to_set(),
    ensures
        best_access(candidates) == best_access(reordered),
{
    lemma_best_access(candidates);
    lemma_best_access(reordered);
    if candidates.len() == 0 {
        if reordered.len() > 0 {
            assert(reordered.contains(reordered[0]));
            assert(reordered.to_set().contains(reordered[0]));
            assert(candidates.to_set().contains(reordered[0]));
        }
    } else {
        assert(candidates.to_set().contains(candidates[0]));
        assert(reordered.to_set().contains(candidates[0]));
        assert(reordered.contains(candidates[0]));
        let left = best_access(candidates)->0;
        let right = best_access(reordered)->0;
        assert(candidates.to_set().contains(left));
        assert(reordered.contains(left));
        assert(reordered.to_set().contains(right));
        assert(candidates.contains(right));
        let i = choose|i: int| 0 <= i < reordered.len() && reordered[i] == left;
        let j = choose|j: int| 0 <= j < candidates.len() && candidates[j] == right;
        assert(!access_better(reordered[i], right));
        assert(!access_better(candidates[j], left));
    }
}

proof fn lemma_best_access(candidates: Seq<AccessArrival>)
    ensures
        candidates.len() == 0 <==> best_access(candidates) is None,
        best_access(candidates) matches Some(winner) ==> candidates.contains(winner) && forall|
            i: int,
        |
            0 <= i < candidates.len() ==> !access_better(#[trigger] candidates[i], winner),
    decreases candidates.len(),
{
    if candidates.len() > 0 {
        let before = candidates.drop_last();
        lemma_best_access(before);
        let winner = best_access(candidates)->0;
        if winner == candidates.last() {
            assert(candidates[candidates.len() - 1] == winner);
        } else {
            let at = choose|i: int| 0 <= i < before.len() && before[i] == winner;
            assert(candidates[at] == winner);
        }
        assert forall|i: int| 0 <= i < candidates.len() implies !access_better(
            #[trigger] candidates[i],
            winner,
        ) by {
            if i < candidates.len() - 1 {
                assert(before[i] == candidates[i]);
            }
        }
    }
}

/// The journeys that the first `count` states of an access stop make.
pub open spec fn access_states(
    states: Seq<ReverseState>,
    stop: u32,
    seconds: u32,
    count: int,
) -> Seq<AccessArrival>
    decreases count,
{
    if count <= 0 {
        Seq::empty()
    } else {
        let before = access_states(states, stop, seconds, count - 1);
        let state = states[count - 1];
        if state.departure >= seconds {
            before.push(
                AccessArrival {
                    departure: (state.departure - seconds) as u32,
                    rides: state.round as u32,
                    achieved: state.achieved,
                    stop,
                },
            )
        } else {
            before
        }
    }
}

/// The last egress walk of a table for a stop, among the first `count`.
pub open spec fn egress_walk(egress: Seq<(u32, u32)>, stop: u32, count: int) -> Option<u32>
    decreases count,
{
    if count <= 0 {
        None
    } else if egress[count - 1].0 == stop {
        Some(egress[count - 1].1)
    } else {
        egress_walk(egress, stop, count - 1)
    }
}

/// A stop on both tables walks straight through: a zero-ride journey.
pub open spec fn straight_through(
    egress: Seq<(u32, u32)>,
    stop: u32,
    seconds: u32,
    deadline: u32,
) -> Seq<AccessArrival> {
    match egress_walk(egress, stop, egress.len() as int) {
        Some(out) => if seconds + out <= deadline {
            seq![
                AccessArrival {
                    departure: (deadline - (seconds + out)) as u32,
                    rides: 0,
                    achieved: deadline,
                    stop,
                },
            ]
        } else {
            Seq::empty()
        },
        None => Seq::empty(),
    }
}

/// Every journey of a cell over the first `count` access links.
pub open spec fn access_arrivals(
    access: Seq<(u32, u32)>,
    states: Seq<Vec<ReverseState>>,
    egress: Seq<(u32, u32)>,
    deadline: u32,
    count: int,
) -> Seq<AccessArrival>
    decreases count,
{
    if count <= 0 {
        Seq::empty()
    } else {
        let (stop, seconds) = access[count - 1];
        access_arrivals(access, states, egress, deadline, count - 1) + access_states(
            states[stop as int]@,
            stop,
            seconds,
            states[stop as int]@.len() as int,
        ) + straight_through(egress, stop, seconds, deadline)
    }
}

fn offer_access(best: &mut Option<AccessArrival>, candidate: AccessArrival)
    ensures
        *final(best) == match *old(best) {
            None => Some(candidate),
            Some(held) => if access_better(candidate, held) {
                Some(candidate)
            } else {
                Some(held)
            },
        },
{
    let wins: bool = match *best {
        None => true,
        Some(held) => candidate.departure > held.departure || (candidate.departure
            == held.departure && (candidate.rides < held.rides || (candidate.rides == held.rides
            && (candidate.achieved < held.achieved || (candidate.achieved == held.achieved
            && candidate.stop < held.stop))))),
    };
    if wins {
        *best = Some(candidate);
    }
}

fn find_egress(egress: &Vec<(u32, u32)>, stop: u32) -> (walk: Option<u32>)
    ensures
        walk == egress_walk(egress@, stop, egress@.len() as int),
{
    let mut walk: Option<u32> = None;
    let mut index: usize = 0;
    while index < egress.len()
        invariant
            index <= egress@.len(),
            walk == egress_walk(egress@, stop, index as int),
        decreases egress.len() - index,
    {
        if egress[index].0 == stop {
            walk = Some(egress[index].1);
        }
        index += 1;
    }
    walk
}

proof fn lemma_access_append(
    first: Seq<AccessArrival>,
    more: Seq<AccessArrival>,
    candidate: AccessArrival,
)
    ensures
        best_access(first + more.push(candidate)) == (match best_access(first + more) {
            None => Some(candidate),
            Some(held) => if access_better(candidate, held) {
                Some(candidate)
            } else {
                Some(held)
            },
        }),
{
    assert((first + more.push(candidate)).drop_last() =~= first + more);
}

/// The winner of one cell over caller-supplied access and egress tables, and
/// the access stop it composed through.
pub fn arrive_by_access_cell(
    access: &Vec<(u32, u32)>,
    states: &Vec<Vec<ReverseState>>,
    egress: &Vec<(u32, u32)>,
    deadline: u32,
) -> (best: Option<AccessArrival>)
    requires
        forall|l: int| 0 <= l < access@.len() ==> (#[trigger] access@[l]).0 < states@.len(),
        forall|s: int| 0 <= s < states@.len() ==> states_forward((#[trigger] states@[s])@),
    ensures
        best == best_access(
            access_arrivals(access@, states@, egress@, deadline, access@.len() as int),
        ),
        best matches Some(arrival) ==> arrival.departure <= arrival.achieved,
{
    let mut best: Option<AccessArrival> = None;
    let mut link: usize = 0;
    while link < access.len()
        invariant
            link <= access@.len(),
            forall|l: int| 0 <= l < access@.len() ==> (#[trigger] access@[l]).0 < states@.len(),
            forall|s: int| 0 <= s < states@.len() ==> states_forward((#[trigger] states@[s])@),
            best matches Some(arrival) ==> arrival.departure <= arrival.achieved,
            best == best_access(
                access_arrivals(access@, states@, egress@, deadline, link as int),
            ),
        decreases access.len() - link,
    {
        let (stop, seconds): (u32, u32) = access[link];
        assert(access@[link as int].0 < states@.len());
        let ghost before = access_arrivals(access@, states@, egress@, deadline, link as int);
        let at_stop = &states[stop as usize];
        assert(states_forward(states@[stop as int]@));
        let mut index: usize = 0;
        assert(before + access_states(at_stop@, stop, seconds, 0) =~= before);
        while index < at_stop.len()
            invariant
                index <= at_stop@.len(),
                states_forward(at_stop@),
                best matches Some(arrival) ==> arrival.departure <= arrival.achieved,
                best == best_access(
                    before + access_states(at_stop@, stop, seconds, index as int),
                ),
            decreases at_stop.len() - index,
        {
            let state: ReverseState = at_stop[index];
            assert(at_stop@[index as int].departure <= at_stop@[index as int].achieved);
            if state.departure >= seconds {
                let candidate = AccessArrival {
                    departure: state.departure - seconds,
                    rides: state.round as u32,
                    achieved: state.achieved,
                    stop,
                };
                proof {
                    lemma_access_append(
                        before,
                        access_states(at_stop@, stop, seconds, index as int),
                        candidate,
                    );
                }
                offer_access(&mut best, candidate);
            }
            index += 1;
        }
        let ghost ridden = before + access_states(
            at_stop@,
            stop,
            seconds,
            at_stop@.len() as int,
        );
        assert(ridden + Seq::<AccessArrival>::empty() =~= ridden);
        if let Some(out) = find_egress(egress, stop) {
            if let Some(total) = seconds.checked_add(out) {
                if deadline >= total {
                    let candidate = AccessArrival {
                        departure: deadline - total,
                        rides: 0,
                        achieved: deadline,
                        stop,
                    };
                    proof {
                        lemma_access_append(ridden, Seq::empty(), candidate);
                        assert(Seq::<AccessArrival>::empty().push(candidate) =~= straight_through(
                            egress@,
                            stop,
                            seconds,
                            deadline,
                        ));
                    }
                    offer_access(&mut best, candidate);
                }
            }
        }
        link += 1;
    }
    best
}

/// The four planes of an arrive-by matrix over access tables.
pub struct AccessMatrix {
    pub departures: Vec<u32>,
    pub durations: Vec<u32>,
    pub rounds: Vec<u32>,
    pub access_stops: Vec<u32>,
}

/// The winner of cell `(row, column)` of columns computed per destination.
pub open spec fn cell_of(columns: Seq<Vec<Option<AccessArrival>>>, row: int, column: int) -> Option<
    AccessArrival,
> {
    columns[column]@[row]
}

pub open spec fn plane_rows(
    columns: Seq<Vec<Option<AccessArrival>>>,
    rows: nat,
    value: spec_fn(AccessArrival) -> u32,
) -> Seq<Seq<u32>> {
    Seq::new(
        rows,
        |row: int|
            Seq::new(
                columns.len(),
                |column: int|
                    match cell_of(columns, row, column) {
                        Some(arrival) => value(arrival),
                        None => UNREACHABLE,
                    },
            ),
    )
}

pub open spec fn duration_value() -> spec_fn(AccessArrival) -> u32 {
    |arrival: AccessArrival| (arrival.achieved - arrival.departure) as u32
}

pub open spec fn departure_value() -> spec_fn(AccessArrival) -> u32 {
    |arrival: AccessArrival| arrival.departure
}

pub open spec fn round_value() -> spec_fn(AccessArrival) -> u32 {
    |arrival: AccessArrival| arrival.rides
}

pub open spec fn stop_value() -> spec_fn(AccessArrival) -> u32 {
    |arrival: AccessArrival| arrival.stop
}

/// Lays the winners out row-major: departure clocks, durations, rounds and
/// access stops, unreachable cells at the maximum.
#[verifier::rlimit(60)]
pub fn arrive_by_access_matrix(columns: &Vec<Vec<Option<AccessArrival>>>, rows: usize) -> (matrix:
    AccessMatrix)
    requires
        forall|c: int| 0 <= c < columns@.len() ==> (#[trigger] columns@[c])@.len() == rows,
        forall|c: int, r: int|
            0 <= c < columns@.len() && 0 <= r < rows ==> (#[trigger] columns@[c]@[r] matches Some(
                arrival,
            ) ==> arrival.departure <= arrival.achieved),
    ensures
        matrix.departures@ == stacked(
            plane_rows(columns@, rows as nat, departure_value()),
        ),
        matrix.durations@ == stacked(plane_rows(columns@, rows as nat, duration_value())),
        matrix.rounds@ == stacked(plane_rows(columns@, rows as nat, round_value())),
        matrix.access_stops@ == stacked(plane_rows(columns@, rows as nat, stop_value())),
{
    let ghost departure_rows = plane_rows(columns@, rows as nat, departure_value());
    let ghost duration_rows = plane_rows(columns@, rows as nat, duration_value());
    let ghost round_rows = plane_rows(columns@, rows as nat, round_value());
    let ghost stop_rows = plane_rows(columns@, rows as nat, stop_value());
    let mut departures: Vec<u32> = Vec::new();
    let mut durations: Vec<u32> = Vec::new();
    let mut rounds: Vec<u32> = Vec::new();
    let mut access_stops: Vec<u32> = Vec::new();
    let mut row: usize = 0;
    proof {
        assert(departure_rows.subrange(0, 0) =~= Seq::empty());
        assert(duration_rows.subrange(0, 0) =~= Seq::empty());
        assert(round_rows.subrange(0, 0) =~= Seq::empty());
        assert(stop_rows.subrange(0, 0) =~= Seq::empty());
    }
    while row < rows
        invariant
            row <= rows,
            forall|c: int| 0 <= c < columns@.len() ==> (#[trigger] columns@[c])@.len() == rows,
            forall|c: int, r: int|
                0 <= c < columns@.len() && 0 <= r < rows ==> (
                #[trigger] columns@[c]@[r] matches Some(arrival) ==> arrival.departure
                    <= arrival.achieved),
            departure_rows == plane_rows(columns@, rows as nat, departure_value()),
            duration_rows == plane_rows(columns@, rows as nat, duration_value()),
            round_rows == plane_rows(columns@, rows as nat, round_value()),
            stop_rows == plane_rows(columns@, rows as nat, stop_value()),
            departures@ == stacked(departure_rows.subrange(0, row as int)),
            durations@ == stacked(duration_rows.subrange(0, row as int)),
            rounds@ == stacked(round_rows.subrange(0, row as int)),
            access_stops@ == stacked(stop_rows.subrange(0, row as int)),
        decreases rows - row,
    {
        let line = access_row(columns, row, Ghost(rows as nat));
        proof {
            lemma_stacked_push(departure_rows.subrange(0, row as int), departure_rows[row as int]);
            lemma_stacked_push(duration_rows.subrange(0, row as int), duration_rows[row as int]);
            lemma_stacked_push(round_rows.subrange(0, row as int), round_rows[row as int]);
            lemma_stacked_push(stop_rows.subrange(0, row as int), stop_rows[row as int]);
            assert(departure_rows.subrange(0, row as int).push(departure_rows[row as int])
                =~= departure_rows.subrange(0, row + 1));
            assert(duration_rows.subrange(0, row as int).push(duration_rows[row as int])
                =~= duration_rows.subrange(0, row + 1));
            assert(round_rows.subrange(0, row as int).push(round_rows[row as int])
                =~= round_rows.subrange(0, row + 1));
            assert(stop_rows.subrange(0, row as int).push(stop_rows[row as int])
                =~= stop_rows.subrange(0, row + 1));
            assert(line.departures@ =~= departure_rows[row as int]);
            assert(line.durations@ =~= duration_rows[row as int]);
            assert(line.rounds@ =~= round_rows[row as int]);
            assert(line.access_stops@ =~= stop_rows[row as int]);
        }
        departures.extend_from_slice(line.departures.as_slice());
        durations.extend_from_slice(line.durations.as_slice());
        rounds.extend_from_slice(line.rounds.as_slice());
        access_stops.extend_from_slice(line.access_stops.as_slice());
        row += 1;
    }
    proof {
        assert(departure_rows.subrange(0, rows as int) =~= departure_rows);
        assert(duration_rows.subrange(0, rows as int) =~= duration_rows);
        assert(round_rows.subrange(0, rows as int) =~= round_rows);
        assert(stop_rows.subrange(0, rows as int) =~= stop_rows);
    }
    AccessMatrix { departures, durations, rounds, access_stops }
}

fn access_row(columns: &Vec<Vec<Option<AccessArrival>>>, row: usize, Ghost(rows): Ghost<nat>) -> (
    line: AccessMatrix)
    requires
        row < rows,
        forall|c: int| 0 <= c < columns@.len() ==> (#[trigger] columns@[c])@.len() == rows,
        forall|c: int, r: int|
            0 <= c < columns@.len() && 0 <= r < rows ==> (#[trigger] columns@[c]@[r] matches Some(
                arrival,
            ) ==> arrival.departure <= arrival.achieved),
    ensures
        line.departures@ == plane_rows(columns@, rows, departure_value())[row as int],
        line.durations@ == plane_rows(columns@, rows, duration_value())[row as int],
        line.rounds@ == plane_rows(columns@, rows, round_value())[row as int],
        line.access_stops@ == plane_rows(columns@, rows, stop_value())[row as int],
{
    let mut departures: Vec<u32> = Vec::new();
    let mut durations: Vec<u32> = Vec::new();
    let mut rounds: Vec<u32> = Vec::new();
    let mut access_stops: Vec<u32> = Vec::new();
    let mut column: usize = 0;
    while column < columns.len()
        invariant
            column <= columns@.len(),
            row < rows,
            forall|c: int| 0 <= c < columns@.len() ==> (#[trigger] columns@[c])@.len() == rows,
            forall|c: int, r: int|
                0 <= c < columns@.len() && 0 <= r < rows ==> (
                #[trigger] columns@[c]@[r] matches Some(arrival) ==> arrival.departure
                    <= arrival.achieved),
            departures@.len() == column,
            durations@.len() == column,
            rounds@.len() == column,
            access_stops@.len() == column,
            forall|c: int|
                #![trigger departures@[c]]
                #![trigger durations@[c]]
                #![trigger rounds@[c]]
                #![trigger access_stops@[c]]
                0 <= c < column ==> (match cell_of(columns@, row as int, c) {
                    Some(arrival) => departures@[c] == arrival.departure && durations@[c]
                        == arrival.achieved - arrival.departure && rounds@[c] == arrival.rides
                        && access_stops@[c] == arrival.stop,
                    None => departures@[c] == UNREACHABLE && durations@[c] == UNREACHABLE
                        && rounds@[c] == UNREACHABLE && access_stops@[c] == UNREACHABLE,
                }),
        decreases columns.len() - column,
    {
        assert(columns@[column as int]@.len() == rows);
        assert(columns@[column as int]@[row as int] matches Some(arrival) ==> arrival.departure
            <= arrival.achieved);
        match columns[column][row] {
            Some(arrival) => {
                departures.push(arrival.departure);
                durations.push(arrival.achieved - arrival.departure);
                rounds.push(arrival.rides);
                access_stops.push(arrival.stop);
            },
            None => {
                departures.push(UNREACHABLE);
                durations.push(UNREACHABLE);
                rounds.push(UNREACHABLE);
                access_stops.push(UNREACHABLE);
            },
        }
        column += 1;
    }
    assert(departures@ =~= plane_rows(columns@, rows, departure_value())[row as int]);
    assert(durations@ =~= plane_rows(columns@, rows, duration_value())[row as int]);
    assert(rounds@ =~= plane_rows(columns@, rows, round_value())[row as int]);
    assert(access_stops@ =~= plane_rows(columns@, rows, stop_value())[row as int]);
    AccessMatrix { departures, durations, rounds, access_stops }
}

/// A winner is one of the candidates. None of them leaves later; none that
/// leaves with it rides less; none that does both arrives earlier.
pub proof fn law_winner_leaves_last(candidates: Seq<Arrival>)
    ensures
        best_arrival(candidates) is None <==> candidates.len() == 0,
        best_arrival(candidates) matches Some(winner) ==> {
            &&& candidates.contains(winner)
            &&& forall|i: int|
                0 <= i < candidates.len() ==> {
                    &&& (#[trigger] candidates[i]).departure <= winner.departure
                    &&& candidates[i].departure == winner.departure ==> candidates[i].rides
                        >= winner.rides
                    &&& candidates[i].departure == winner.departure && candidates[i].rides
                        == winner.rides ==> candidates[i].achieved >= winner.achieved
                }
        },
    decreases candidates.len(),
{
    if candidates.len() > 0 {
        let before = candidates.drop_last();
        law_winner_leaves_last(before);
        let winner = best_arrival(candidates)->0;
        if winner == candidates.last() {
            assert(candidates[candidates.len() - 1] == winner);
        } else {
            let at = choose|i: int| 0 <= i < before.len() && before[i] == winner;
            assert(candidates[at] == winner);
        }
        assert forall|i: int| 0 <= i < candidates.len() implies {
            &&& (#[trigger] candidates[i]).departure <= winner.departure
            &&& candidates[i].departure == winner.departure ==> candidates[i].rides
                >= winner.rides
            &&& candidates[i].departure == winner.departure && candidates[i].rides == winner.rides
                ==> candidates[i].achieved >= winner.achieved
        } by {
            if i < candidates.len() - 1 {
                assert(before[i] == candidates[i]);
            }
        }
    }
}

/// The journeys of a stop over a walk: every state that can still be walked
/// to, leaving that much earlier, and nothing else.
proof fn lemma_state_arrivals(states: Seq<ReverseState>, seconds: u32, count: int)
    requires
        0 <= count <= states.len(),
    ensures
        forall|i: int|
            0 <= i < count && (#[trigger] states[i]).departure >= seconds ==> state_arrivals(
                states,
                seconds,
                count,
            ).contains(
                Arrival {
                    departure: (states[i].departure - seconds) as u32,
                    rides: states[i].round as u32,
                    achieved: states[i].achieved,
                },
            ),
        forall|k: int|
            0 <= k < state_arrivals(states, seconds, count).len() ==> made_from(
                states,
                seconds,
                #[trigger] state_arrivals(states, seconds, count)[k],
            ),
    decreases count,
{
    if count > 0 {
        lemma_state_arrivals(states, seconds, count - 1);
        let before = state_arrivals(states, seconds, count - 1);
        let after = state_arrivals(states, seconds, count);
        assert forall|i: int|
            0 <= i < count && (#[trigger] states[i]).departure >= seconds implies after.contains(
            Arrival {
                departure: (states[i].departure - seconds) as u32,
                rides: states[i].round as u32,
                achieved: states[i].achieved,
            },
        ) by {
            let arrival = Arrival {
                departure: (states[i].departure - seconds) as u32,
                rides: states[i].round as u32,
                achieved: states[i].achieved,
            };
            if i < count - 1 {
                assert(before.contains(arrival));
                let at = choose|at: int| 0 <= at < before.len() && before[at] == arrival;
                assert(after[at] == arrival);
            } else {
                assert(after[after.len() - 1] == arrival);
            }
        }
        assert forall|k: int| 0 <= k < after.len() implies made_from(
            states,
            seconds,
            #[trigger] after[k],
        ) by {
            if k < before.len() {
                assert(after[k] == before[k]);
            } else {
                assert(states[count - 1].departure - seconds == after[k].departure);
            }
        }
    }
}

/// Whether a journey is one of a stop's states with a walk before it.
pub open spec fn made_from(states: Seq<ReverseState>, seconds: u32, journey: Arrival) -> bool {
    exists|i: int|
        0 <= i < states.len() && (#[trigger] states[i]).departure - seconds == journey.departure
            && states[i].round == journey.rides && states[i].achieved == journey.achieved
}

/// Whether a journey leaves no later than another, and rides and arrives no
/// better where it leaves with it.
pub open spec fn no_better(
    departure: int,
    rides: int,
    achieved: int,
    other: (int, int, int),
) -> bool {
    &&& departure <= other.0
    &&& departure == other.0 ==> rides >= other.1
    &&& departure == other.0 && rides == other.1 ==> achieved >= other.2
}

proof fn lemma_link_arrivals(
    links: Seq<(u32, u32, u64)>,
    states: Seq<Vec<ReverseState>>,
    count: int,
)
    requires
        0 <= count <= links.len(),
    ensures
        forall|l: int, i: int|
            0 <= l < count && 0 <= i < states[links[l].0 as int]@.len() && (
            #[trigger] states[links[l].0 as int]@[i]).departure >= links[l].1 ==> link_arrivals(
                links,
                states,
                count,
            ).contains(
                Arrival {
                    departure: (states[links[l].0 as int]@[i].departure - links[l].1) as u32,
                    rides: states[links[l].0 as int]@[i].round as u32,
                    achieved: states[links[l].0 as int]@[i].achieved,
                },
            ),
        forall|k: int|
            0 <= k < link_arrivals(links, states, count).len() ==> exists|l: int|
                0 <= l < count && made_from(
                    states[(#[trigger] links[l]).0 as int]@,
                    links[l].1,
                    #[trigger] link_arrivals(links, states, count)[k],
                ),
    decreases count,
{
    if count > 0 {
        lemma_link_arrivals(links, states, count - 1);
        let (stop, seconds, _) = links[count - 1];
        let own = states[stop as int]@;
        lemma_state_arrivals(own, seconds, own.len() as int);
        let before = link_arrivals(links, states, count - 1);
        let made = state_arrivals(own, seconds, own.len() as int);
        let after = link_arrivals(links, states, count);
        assert forall|l: int, i: int|
            0 <= l < count && 0 <= i < states[links[l].0 as int]@.len() && (
            #[trigger] states[links[l].0 as int]@[i]).departure >= links[l].1 implies after.contains(
            Arrival {
                departure: (states[links[l].0 as int]@[i].departure - links[l].1) as u32,
                rides: states[links[l].0 as int]@[i].round as u32,
                achieved: states[links[l].0 as int]@[i].achieved,
            },
        ) by {
            let state = states[links[l].0 as int]@[i];
            let arrival = Arrival {
                departure: (state.departure - links[l].1) as u32,
                rides: state.round as u32,
                achieved: state.achieved,
            };
            if l < count - 1 {
                assert(before.contains(arrival));
                let at = choose|at: int| 0 <= at < before.len() && before[at] == arrival;
                assert(after[at] == arrival);
            } else {
                assert(own[i] == state);
                assert(made.contains(arrival));
                let at = choose|at: int| 0 <= at < made.len() && made[at] == arrival;
                assert(after[before.len() + at] == arrival);
            }
        }
        assert forall|k: int| 0 <= k < after.len() implies exists|l: int|
            0 <= l < count && made_from(
                states[(#[trigger] links[l]).0 as int]@,
                links[l].1,
                #[trigger] after[k],
            ) by {
            if k < before.len() {
                assert(after[k] == before[k]);
                let l = choose|l: int|
                    0 <= l < count - 1 && made_from(
                        states[(#[trigger] links[l]).0 as int]@,
                        links[l].1,
                        before[k],
                    );
                assert(made_from(states[links[l].0 as int]@, links[l].1, after[k]));
            } else {
                assert(after[k] == made[k - before.len()]);
                assert(made_from(states[links[count - 1].0 as int]@, links[count - 1].1, after[k]));
            }
        }
    }
}

/// A point pair's journey by a deadline is a state of one of its access stops
/// with the access walk before it, or the direct walk placed to end at the
/// deadline. No such journey leaves later, and none that leaves with it rides
/// less, or rides as much and arrives earlier; and there is none only where
/// there is no such journey.
pub proof fn law_point_journeys_leave_last(
    links: Seq<(u32, u32, u64)>,
    states: Seq<Vec<ReverseState>>,
    walk: Option<(u32, u64)>,
    deadline: u32,
)
    ensures
        ({
            let best = best_arrival(point_arrivals(links, states, walk, deadline));
            &&& forall|l: int, i: int|
                0 <= l < links.len() && 0 <= i < states[links[l].0 as int]@.len() && (
                #[trigger] states[links[l].0 as int]@[i]).departure >= links[l].1 ==> best is Some
                    && no_better(
                    states[links[l].0 as int]@[i].departure - links[l].1,
                    states[links[l].0 as int]@[i].round as int,
                    states[links[l].0 as int]@[i].achieved as int,
                    (best->0.departure as int, best->0.rides as int, best->0.achieved as int),
                )
            &&& walk matches Some((seconds, _)) ==> (seconds <= deadline ==> best is Some
                && no_better(
                deadline - seconds,
                0,
                deadline as int,
                (best->0.departure as int, best->0.rides as int, best->0.achieved as int),
            ))
            &&& best matches Some(winner) ==> {
                ||| exists|l: int|
                    0 <= l < links.len() && made_from(
                        states[(#[trigger] links[l]).0 as int]@,
                        links[l].1,
                        winner,
                    )
                ||| walk matches Some((seconds, _)) && winner.departure == deadline - seconds
                    && winner.rides == 0 && winner.achieved == deadline
            }
        }),
{
    let ridden = link_arrivals(links, states, links.len() as int);
    let placed = placed_walk(walk, deadline);
    let all = point_arrivals(links, states, walk, deadline);
    law_winner_leaves_last(all);
    lemma_link_arrivals(links, states, links.len() as int);
    let best = best_arrival(all);
    assert forall|l: int, i: int|
        0 <= l < links.len() && 0 <= i < states[links[l].0 as int]@.len() && (
        #[trigger] states[links[l].0 as int]@[i]).departure >= links[l].1 implies best is Some
        && no_better(
        states[links[l].0 as int]@[i].departure - links[l].1,
        states[links[l].0 as int]@[i].round as int,
        states[links[l].0 as int]@[i].achieved as int,
        (best->0.departure as int, best->0.rides as int, best->0.achieved as int),
    ) by {
        let state = states[links[l].0 as int]@[i];
        let arrival = Arrival {
            departure: (state.departure - links[l].1) as u32,
            rides: state.round as u32,
            achieved: state.achieved,
        };
        assert(ridden.contains(arrival));
        let at = choose|at: int| 0 <= at < ridden.len() && ridden[at] == arrival;
        assert(all[at] == arrival);
    }
    if let Some((seconds, _)) = walk {
        if seconds <= deadline {
            assert(all[ridden.len() as int] == placed[0]);
        }
    }
    if let Some(winner) = best {
        let k = choose|k: int| 0 <= k < all.len() && all[k] == winner;
        if k < ridden.len() {
            assert(ridden[k] == winner);
        } else {
            assert(all[k] == placed[k - ridden.len()]);
        }
    }
}

/// A stop pair's journey by a deadline is one of the origin's states, or
/// staying put where origin and destination are one stop; none of them leaves
/// later, and none that leaves with it rides less.
pub proof fn law_stop_journeys_leave_last(
    states: Seq<ReverseState>,
    same_stop: bool,
    deadline: u32,
)
    ensures
        ({
            let best = best_arrival(stop_arrivals(states, same_stop, deadline));
            &&& best is None <==> states.len() == 0 && !same_stop
            &&& forall|i: int|
                0 <= i < states.len() ==> no_better(
                    (#[trigger] states[i]).departure as int,
                    states[i].round as int,
                    states[i].achieved as int,
                    (best->0.departure as int, best->0.rides as int, best->0.achieved as int),
                )
            &&& same_stop ==> no_better(
                deadline as int,
                0,
                deadline as int,
                (best->0.departure as int, best->0.rides as int, best->0.achieved as int),
            )
            &&& best matches Some(winner) ==> made_from(states, 0, winner) || same_stop
                && winner.departure == deadline && winner.rides == 0 && winner.achieved == deadline
        }),
{
    let ridden = state_arrivals(states, 0, states.len() as int);
    let all = stop_arrivals(states, same_stop, deadline);
    law_winner_leaves_last(all);
    lemma_state_arrivals(states, 0, states.len() as int);
    let best = best_arrival(all);
    assert forall|i: int| 0 <= i < states.len() implies best is Some && no_better(
        (#[trigger] states[i]).departure as int,
        states[i].round as int,
        states[i].achieved as int,
        (best->0.departure as int, best->0.rides as int, best->0.achieved as int),
    ) by {
        let arrival = Arrival {
            departure: (states[i].departure - 0) as u32,
            rides: states[i].round as u32,
            achieved: states[i].achieved,
        };
        assert(ridden.contains(arrival));
        let at = choose|at: int| 0 <= at < ridden.len() && ridden[at] == arrival;
        assert(all[at] == arrival);
    }
    if same_stop {
        assert(all[ridden.len() as int].departure == deadline);
    }
    if states.len() > 0 {
        assert(states[0].departure >= 0);
    }
    if ridden.len() > 0 {
        assert(made_from(states, 0, ridden[0]));
    }
    if let Some(winner) = best {
        let k = choose|k: int| 0 <= k < all.len() && all[k] == winner;
        if k < ridden.len() {
            assert(ridden[k] == winner);
        }
    }
}

/// A cell's duration is the time from its journey's departure to its arrival,
/// and the unreachable mark where there is no journey.
pub proof fn law_cell_durations(journey: Arrival)
    requires
        journey.departure <= journey.achieved,
    ensures
        duration_of(Some(journey)) + journey.departure == journey.achieved,
        duration_of(None) == u32::MAX,
{
}

/// At one deadline mark the journeys are those of every link's states at that
/// mark, with its walk before them, and the walk placed to end at the mark:
/// the mark's duration is that of one which none leaves later than.
pub proof fn law_mark_journeys_leave_last(
    profiles: Seq<(u32, Vec<Vec<ReverseState>>)>,
    marks: Seq<u32>,
    walk: Option<(u32, u64)>,
    mark: int,
)
    ensures
        ({
            let best = best_arrival(
                mark_arrivals(profiles, mark, profiles.len() as int) + placed_walk(
                    walk,
                    marks[mark],
                ),
            );
            &&& mark_duration(profiles, marks, walk, mark) == duration_of(best)
            &&& forall|l: int, i: int|
                0 <= l < profiles.len() && 0 <= i < profiles[l].1@[mark]@.len() && (
                #[trigger] profiles[l].1@[mark]@[i]).departure >= profiles[l].0 ==> best is Some
                    && no_better(
                    profiles[l].1@[mark]@[i].departure - profiles[l].0,
                    profiles[l].1@[mark]@[i].round as int,
                    profiles[l].1@[mark]@[i].achieved as int,
                    (best->0.departure as int, best->0.rides as int, best->0.achieved as int),
                )
            &&& walk matches Some((seconds, _)) ==> (seconds <= marks[mark] ==> best is Some
                && no_better(
                marks[mark] - seconds,
                0,
                marks[mark] as int,
                (best->0.departure as int, best->0.rides as int, best->0.achieved as int),
            ))
            &&& best matches Some(winner) ==> {
                ||| exists|l: int|
                    0 <= l < profiles.len() && made_from(
                        (#[trigger] profiles[l]).1@[mark]@,
                        profiles[l].0,
                        winner,
                    )
                ||| walk matches Some((seconds, _)) && winner.departure == marks[mark] - seconds
                    && winner.rides == 0 && winner.achieved == marks[mark]
            }
        }),
{
    let ridden = mark_arrivals(profiles, mark, profiles.len() as int);
    let placed = placed_walk(walk, marks[mark]);
    let all = ridden + placed;
    law_winner_leaves_last(all);
    lemma_mark_arrivals(profiles, mark, profiles.len() as int);
    let best = best_arrival(all);
    assert forall|l: int, i: int|
        0 <= l < profiles.len() && 0 <= i < profiles[l].1@[mark]@.len() && (
        #[trigger] profiles[l].1@[mark]@[i]).departure >= profiles[l].0 implies best is Some
        && no_better(
        profiles[l].1@[mark]@[i].departure - profiles[l].0,
        profiles[l].1@[mark]@[i].round as int,
        profiles[l].1@[mark]@[i].achieved as int,
        (best->0.departure as int, best->0.rides as int, best->0.achieved as int),
    ) by {
        let state = profiles[l].1@[mark]@[i];
        let arrival = Arrival {
            departure: (state.departure - profiles[l].0) as u32,
            rides: state.round as u32,
            achieved: state.achieved,
        };
        assert(ridden.contains(arrival));
        let at = choose|at: int| 0 <= at < ridden.len() && ridden[at] == arrival;
        assert(all[at] == arrival);
    }
    if let Some((seconds, _)) = walk {
        if seconds <= marks[mark] {
            assert(all[ridden.len() as int] == placed[0]);
        }
    }
    if let Some(winner) = best {
        let k = choose|k: int| 0 <= k < all.len() && all[k] == winner;
        if k < ridden.len() {
            assert(ridden[k] == winner);
        } else {
            assert(all[k] == placed[k - ridden.len()]);
        }
    }
}

proof fn lemma_mark_arrivals(
    profiles: Seq<(u32, Vec<Vec<ReverseState>>)>,
    mark: int,
    count: int,
)
    requires
        0 <= count <= profiles.len(),
    ensures
        forall|l: int, i: int|
            0 <= l < count && 0 <= i < profiles[l].1@[mark]@.len() && (
            #[trigger] profiles[l].1@[mark]@[i]).departure >= profiles[l].0 ==> mark_arrivals(
                profiles,
                mark,
                count,
            ).contains(
                Arrival {
                    departure: (profiles[l].1@[mark]@[i].departure - profiles[l].0) as u32,
                    rides: profiles[l].1@[mark]@[i].round as u32,
                    achieved: profiles[l].1@[mark]@[i].achieved,
                },
            ),
        forall|k: int|
            0 <= k < mark_arrivals(profiles, mark, count).len() ==> exists|l: int|
                0 <= l < count && made_from(
                    (#[trigger] profiles[l]).1@[mark]@,
                    profiles[l].0,
                    #[trigger] mark_arrivals(profiles, mark, count)[k],
                ),
    decreases count,
{
    if count > 0 {
        lemma_mark_arrivals(profiles, mark, count - 1);
        let seconds = profiles[count - 1].0;
        let own = profiles[count - 1].1@[mark]@;
        lemma_state_arrivals(own, seconds, own.len() as int);
        let before = mark_arrivals(profiles, mark, count - 1);
        let made = state_arrivals(own, seconds, own.len() as int);
        let after = mark_arrivals(profiles, mark, count);
        assert forall|l: int, i: int|
            0 <= l < count && 0 <= i < profiles[l].1@[mark]@.len() && (
            #[trigger] profiles[l].1@[mark]@[i]).departure >= profiles[l].0 implies after.contains(
            Arrival {
                departure: (profiles[l].1@[mark]@[i].departure - profiles[l].0) as u32,
                rides: profiles[l].1@[mark]@[i].round as u32,
                achieved: profiles[l].1@[mark]@[i].achieved,
            },
        ) by {
            let state = profiles[l].1@[mark]@[i];
            let arrival = Arrival {
                departure: (state.departure - profiles[l].0) as u32,
                rides: state.round as u32,
                achieved: state.achieved,
            };
            if l < count - 1 {
                assert(before.contains(arrival));
                let at = choose|at: int| 0 <= at < before.len() && before[at] == arrival;
                assert(after[at] == arrival);
            } else {
                assert(own[i] == state);
                assert(made.contains(arrival));
                let at = choose|at: int| 0 <= at < made.len() && made[at] == arrival;
                assert(after[before.len() + at] == arrival);
            }
        }
        assert forall|k: int| 0 <= k < after.len() implies exists|l: int|
            0 <= l < count && made_from(
                (#[trigger] profiles[l]).1@[mark]@,
                profiles[l].0,
                #[trigger] after[k],
            ) by {
            if k < before.len() {
                assert(after[k] == before[k]);
                let l = choose|l: int|
                    0 <= l < count - 1 && made_from(
                        (#[trigger] profiles[l]).1@[mark]@,
                        profiles[l].0,
                        before[k],
                    );
                assert(made_from(profiles[l].1@[mark]@, profiles[l].0, after[k]));
            } else {
                assert(after[k] == made[k - before.len()]);
                assert(made_from(profiles[count - 1].1@[mark]@, profiles[count - 1].0, after[k]));
            }
        }
    }
}

/// An elected journey is one of the candidates. None of them leaves later;
/// among those that leave with it none rides less, among those none arrives
/// earlier, and among those none goes through a lower stop.
pub proof fn law_elected_access_leaves_last(candidates: Seq<AccessArrival>)
    ensures
        best_access(candidates) is None <==> candidates.len() == 0,
        best_access(candidates) matches Some(winner) ==> {
            &&& candidates.contains(winner)
            &&& forall|i: int|
                0 <= i < candidates.len() ==> {
                    &&& (#[trigger] candidates[i]).departure <= winner.departure
                    &&& candidates[i].departure == winner.departure ==> candidates[i].rides
                        >= winner.rides
                    &&& candidates[i].departure == winner.departure && candidates[i].rides
                        == winner.rides ==> candidates[i].achieved >= winner.achieved
                    &&& candidates[i].departure == winner.departure && candidates[i].rides
                        == winner.rides && candidates[i].achieved == winner.achieved
                        ==> candidates[i].stop >= winner.stop
                }
        },
    decreases candidates.len(),
{
    if candidates.len() > 0 {
        let before = candidates.drop_last();
        law_elected_access_leaves_last(before);
        let winner = best_access(candidates)->0;
        if winner == candidates.last() {
            assert(candidates[candidates.len() - 1] == winner);
        } else {
            let at = choose|i: int| 0 <= i < before.len() && before[i] == winner;
            assert(candidates[at] == winner);
        }
        assert forall|i: int| 0 <= i < candidates.len() implies {
            &&& (#[trigger] candidates[i]).departure <= winner.departure
            &&& candidates[i].departure == winner.departure ==> candidates[i].rides
                >= winner.rides
            &&& candidates[i].departure == winner.departure && candidates[i].rides == winner.rides
                ==> candidates[i].achieved >= winner.achieved
            &&& candidates[i].departure == winner.departure && candidates[i].rides == winner.rides
                && candidates[i].achieved == winner.achieved ==> candidates[i].stop >= winner.stop
        } by {
            if i < candidates.len() - 1 {
                assert(before[i] == candidates[i]);
            }
        }
    }
}

proof fn lemma_access_states(states: Seq<ReverseState>, stop: u32, seconds: u32, count: int)
    requires
        0 <= count <= states.len(),
    ensures
        forall|i: int|
            0 <= i < count && (#[trigger] states[i]).departure >= seconds ==> access_states(
                states,
                stop,
                seconds,
                count,
            ).contains(
                AccessArrival {
                    departure: (states[i].departure - seconds) as u32,
                    rides: states[i].round as u32,
                    achieved: states[i].achieved,
                    stop,
                },
            ),
        forall|k: int|
            0 <= k < access_states(states, stop, seconds, count).len() ==> ridden_through(
                states,
                stop,
                seconds,
                #[trigger] access_states(states, stop, seconds, count)[k],
            ),
    decreases count,
{
    if count > 0 {
        lemma_access_states(states, stop, seconds, count - 1);
        let before = access_states(states, stop, seconds, count - 1);
        let after = access_states(states, stop, seconds, count);
        assert forall|i: int|
            0 <= i < count && (#[trigger] states[i]).departure >= seconds implies after.contains(
            AccessArrival {
                departure: (states[i].departure - seconds) as u32,
                rides: states[i].round as u32,
                achieved: states[i].achieved,
                stop,
            },
        ) by {
            let arrival = AccessArrival {
                departure: (states[i].departure - seconds) as u32,
                rides: states[i].round as u32,
                achieved: states[i].achieved,
                stop,
            };
            if i < count - 1 {
                assert(before.contains(arrival));
                let at = choose|at: int| 0 <= at < before.len() && before[at] == arrival;
                assert(after[at] == arrival);
            } else {
                assert(after[after.len() - 1] == arrival);
            }
        }
        assert forall|k: int| 0 <= k < after.len() implies ridden_through(
            states,
            stop,
            seconds,
            #[trigger] after[k],
        ) by {
            if k < before.len() {
                assert(after[k] == before[k]);
            } else {
                assert(states[count - 1].departure - seconds == after[k].departure);
            }
        }
    }
}

/// Whether a journey is one of an access stop's states with the walk to the
/// stop before it.
pub open spec fn ridden_through(
    states: Seq<ReverseState>,
    stop: u32,
    seconds: u32,
    journey: AccessArrival,
) -> bool {
    &&& journey.stop == stop
    &&& exists|i: int|
        0 <= i < states.len() && (#[trigger] states[i]).departure - seconds == journey.departure
            && states[i].round == journey.rides && states[i].achieved == journey.achieved
}

/// Whether a journey walks straight through a stop to end at the deadline.
pub open spec fn walked_through(
    egress: Seq<(u32, u32)>,
    stop: u32,
    seconds: u32,
    deadline: u32,
    journey: AccessArrival,
) -> bool {
    &&& journey.stop == stop
    &&& journey.rides == 0
    &&& journey.achieved == deadline
    &&& exists|e: int|
        0 <= e < egress.len() && (#[trigger] egress[e]).0 == stop && journey.departure + seconds
            + egress[e].1 == deadline && forall|f: int|
            e < f < egress.len() ==> (#[trigger] egress[f]).0 != stop
}

proof fn lemma_egress_walk(egress: Seq<(u32, u32)>, stop: u32, count: int)
    requires
        0 <= count <= egress.len(),
    ensures
        match egress_walk(egress, stop, count) {
            Some(out) => exists|e: int|
                0 <= e < count && #[trigger] egress[e] == (stop, out) && forall|f: int|
                    e < f < count ==> (#[trigger] egress[f]).0 != stop,
            None => forall|f: int| 0 <= f < count ==> (#[trigger] egress[f]).0 != stop,
        },
    decreases count,
{
    if count > 0 {
        lemma_egress_walk(egress, stop, count - 1);
        if egress[count - 1].0 == stop {
            assert(egress[count - 1] == (stop, egress[count - 1].1));
        } else if let Some(out) = egress_walk(egress, stop, count - 1) {
            let e = choose|e: int|
                0 <= e < count - 1 && #[trigger] egress[e] == (stop, out) && forall|f: int|
                    e < f < count - 1 ==> (#[trigger] egress[f]).0 != stop;
            assert(egress[e] == (stop, out));
        }
    }
}

proof fn lemma_access_arrivals(
    access: Seq<(u32, u32)>,
    states: Seq<Vec<ReverseState>>,
    egress: Seq<(u32, u32)>,
    deadline: u32,
    count: int,
)
    requires
        0 <= count <= access.len(),
    ensures
        forall|l: int, i: int|
            0 <= l < count && 0 <= i < states[access[l].0 as int]@.len() && (
            #[trigger] states[access[l].0 as int]@[i]).departure >= access[l].1
                ==> access_arrivals(access, states, egress, deadline, count).contains(
                AccessArrival {
                    departure: (states[access[l].0 as int]@[i].departure - access[l].1) as u32,
                    rides: states[access[l].0 as int]@[i].round as u32,
                    achieved: states[access[l].0 as int]@[i].achieved,
                    stop: access[l].0,
                },
            ),
        forall|l: int, e: int|
            0 <= l < count && 0 <= e < egress.len() && (#[trigger] egress[e]).0 == (
            #[trigger] access[l]).0 && (forall|f: int|
                e < f < egress.len() ==> (#[trigger] egress[f]).0 != access[l].0) && access[l].1
                + egress[e].1 <= deadline ==> access_arrivals(
                access,
                states,
                egress,
                deadline,
                count,
            ).contains(
                AccessArrival {
                    departure: (deadline - (access[l].1 + egress[e].1)) as u32,
                    rides: 0,
                    achieved: deadline,
                    stop: access[l].0,
                },
            ),
        forall|k: int|
            0 <= k < access_arrivals(access, states, egress, deadline, count).len() ==> exists|
                l: int,
            |
                0 <= l < count && composed_over(
                    #[trigger] access[l],
                    states,
                    egress,
                    deadline,
                    #[trigger] access_arrivals(access, states, egress, deadline, count)[k],
                ),
    decreases count,
{
    if count > 0 {
        lemma_access_arrivals(access, states, egress, deadline, count - 1);
        let (stop, seconds) = access[count - 1];
        let own = states[stop as int]@;
        lemma_access_states(own, stop, seconds, own.len() as int);
        lemma_egress_walk(egress, stop, egress.len() as int);
        let before = access_arrivals(access, states, egress, deadline, count - 1);
        let made = access_states(own, stop, seconds, own.len() as int);
        let through = straight_through(egress, stop, seconds, deadline);
        let after = access_arrivals(access, states, egress, deadline, count);
        assert forall|l: int, i: int|
            0 <= l < count && 0 <= i < states[access[l].0 as int]@.len() && (
            #[trigger] states[access[l].0 as int]@[i]).departure
                >= access[l].1 implies after.contains(
            AccessArrival {
                departure: (states[access[l].0 as int]@[i].departure - access[l].1) as u32,
                rides: states[access[l].0 as int]@[i].round as u32,
                achieved: states[access[l].0 as int]@[i].achieved,
                stop: access[l].0,
            },
        ) by {
            let state = states[access[l].0 as int]@[i];
            let arrival = AccessArrival {
                departure: (state.departure - access[l].1) as u32,
                rides: state.round as u32,
                achieved: state.achieved,
                stop: access[l].0,
            };
            if l < count - 1 {
                assert(before.contains(arrival));
                let at = choose|at: int| 0 <= at < before.len() && before[at] == arrival;
                assert(after[at] == arrival);
            } else {
                assert(own[i] == state);
                assert(made.contains(arrival));
                let at = choose|at: int| 0 <= at < made.len() && made[at] == arrival;
                assert(after[before.len() + at] == arrival);
            }
        }
        assert forall|l: int, e: int|
            0 <= l < count && 0 <= e < egress.len() && (#[trigger] egress[e]).0 == (
            #[trigger] access[l]).0 && (forall|f: int|
                e < f < egress.len() ==> (#[trigger] egress[f]).0 != access[l].0) && access[l].1
                + egress[e].1 <= deadline implies after.contains(
            AccessArrival {
                departure: (deadline - (access[l].1 + egress[e].1)) as u32,
                rides: 0,
                achieved: deadline,
                stop: access[l].0,
            },
        ) by {
            let arrival = AccessArrival {
                departure: (deadline - (access[l].1 + egress[e].1)) as u32,
                rides: 0,
                achieved: deadline,
                stop: access[l].0,
            };
            if l < count - 1 {
                assert(before.contains(arrival));
                let at = choose|at: int| 0 <= at < before.len() && before[at] == arrival;
                assert(after[at] == arrival);
            } else {
                let out = egress_walk(egress, stop, egress.len() as int)->0;
                let last = choose|last: int|
                    0 <= last < egress.len() && #[trigger] egress[last] == (stop, out) && forall|
                        f: int,
                    |
                        last < f < egress.len() ==> (#[trigger] egress[f]).0 != stop;
                assert(last == e);
                assert(through[0] == arrival);
                assert(after[(before.len() + made.len()) as int] == arrival);
            }
        }
        assert forall|k: int| 0 <= k < after.len() implies exists|l: int|
            0 <= l < count && composed_over(
                #[trigger] access[l],
                states,
                egress,
                deadline,
                #[trigger] after[k],
            ) by {
            if k < before.len() {
                assert(after[k] == before[k]);
                let l = choose|l: int|
                    0 <= l < count - 1 && composed_over(
                        #[trigger] access[l],
                        states,
                        egress,
                        deadline,
                        before[k],
                    );
                assert(composed_over(access[l], states, egress, deadline, after[k]));
            } else if k < before.len() + made.len() {
                assert(after[k] == made[k - before.len()]);
                assert(composed_over(access[count - 1], states, egress, deadline, after[k]));
            } else {
                assert(after[k] == through[k - before.len() - made.len()]);
                let out = egress_walk(egress, stop, egress.len() as int)->0;
                let last = choose|last: int|
                    0 <= last < egress.len() && #[trigger] egress[last] == (stop, out) && forall|
                        f: int,
                    |
                        last < f < egress.len() ==> (#[trigger] egress[f]).0 != stop;
                assert(after[k].departure + seconds + egress[last].1 == deadline);
                assert(composed_over(access[count - 1], states, egress, deadline, after[k]));
            }
        }
    }
}

/// Whether a journey is composed over an access link: it rides from the
/// link's stop, or walks straight through it.
pub open spec fn composed_over(
    link: (u32, u32),
    states: Seq<Vec<ReverseState>>,
    egress: Seq<(u32, u32)>,
    deadline: u32,
    journey: AccessArrival,
) -> bool {
    ||| ridden_through(states[link.0 as int]@, link.0, link.1, journey)
    ||| walked_through(egress, link.0, link.1, deadline, journey)
}

/// The elected journey of a cell over access and egress tables is composed
/// over one of the access links. No journey that a link and a state of its
/// stop make, and no straight walk, leaves later than it; among those that
/// leave with it none rides less, and where there is any of them there is an
/// elected one.
pub proof fn law_access_cells_leave_last(
    access: Seq<(u32, u32)>,
    states: Seq<Vec<ReverseState>>,
    egress: Seq<(u32, u32)>,
    deadline: u32,
)
    ensures
        ({
            let best = best_access(
                access_arrivals(access, states, egress, deadline, access.len() as int),
            );
            &&& forall|l: int, i: int|
                0 <= l < access.len() && 0 <= i < states[access[l].0 as int]@.len() && (
                #[trigger] states[access[l].0 as int]@[i]).departure >= access[l].1 ==> best is Some
                    && no_better(
                    states[access[l].0 as int]@[i].departure - access[l].1,
                    states[access[l].0 as int]@[i].round as int,
                    states[access[l].0 as int]@[i].achieved as int,
                    (best->0.departure as int, best->0.rides as int, best->0.achieved as int),
                )
            &&& forall|l: int, e: int|
                0 <= l < access.len() && 0 <= e < egress.len() && (#[trigger] egress[e]).0 == (
                #[trigger] access[l]).0 && (forall|f: int|
                    e < f < egress.len() ==> (#[trigger] egress[f]).0 != access[l].0)
                    && access[l].1 + egress[e].1 <= deadline ==> best is Some && no_better(
                    deadline - (access[l].1 + egress[e].1),
                    0,
                    deadline as int,
                    (best->0.departure as int, best->0.rides as int, best->0.achieved as int),
                )
            &&& best matches Some(winner) ==> exists|l: int|
                0 <= l < access.len() && composed_over(
                    #[trigger] access[l],
                    states,
                    egress,
                    deadline,
                    winner,
                )
        }),
{
    let all = access_arrivals(access, states, egress, deadline, access.len() as int);
    law_elected_access_leaves_last(all);
    lemma_access_arrivals(access, states, egress, deadline, access.len() as int);
    let best = best_access(all);
    assert forall|l: int, i: int|
        0 <= l < access.len() && 0 <= i < states[access[l].0 as int]@.len() && (
        #[trigger] states[access[l].0 as int]@[i]).departure >= access[l].1 implies best is Some
        && no_better(
        states[access[l].0 as int]@[i].departure - access[l].1,
        states[access[l].0 as int]@[i].round as int,
        states[access[l].0 as int]@[i].achieved as int,
        (best->0.departure as int, best->0.rides as int, best->0.achieved as int),
    ) by {
        let state = states[access[l].0 as int]@[i];
        let arrival = AccessArrival {
            departure: (state.departure - access[l].1) as u32,
            rides: state.round as u32,
            achieved: state.achieved,
            stop: access[l].0,
        };
        assert(all.contains(arrival));
        let at = choose|at: int| 0 <= at < all.len() && all[at] == arrival;
        assert(all[at] == arrival);
    }
    assert forall|l: int, e: int|
        0 <= l < access.len() && 0 <= e < egress.len() && (#[trigger] egress[e]).0 == (
        #[trigger] access[l]).0 && (forall|f: int|
            e < f < egress.len() ==> (#[trigger] egress[f]).0 != access[l].0) && access[l].1
            + egress[e].1 <= deadline implies best is Some && no_better(
        deadline - (access[l].1 + egress[e].1),
        0,
        deadline as int,
        (best->0.departure as int, best->0.rides as int, best->0.achieved as int),
    ) by {
        let arrival = AccessArrival {
            departure: (deadline - (access[l].1 + egress[e].1)) as u32,
            rides: 0,
            achieved: deadline,
            stop: access[l].0,
        };
        assert(all.contains(arrival));
        let at = choose|at: int| 0 <= at < all.len() && all[at] == arrival;
        assert(all[at] == arrival);
    }
    if let Some(winner) = best {
        let k = choose|k: int| 0 <= k < all.len() && all[k] == winner;
        assert(all[k] == winner);
    }
}

/// A laid-out matrix holds each winner at its row and column: its departure,
/// what lies between that and its arrival, its rides and its stop; and the
/// unreachable mark in all four planes where there is none.
pub proof fn law_planes_hold_the_winners(
    columns: Seq<Vec<Option<AccessArrival>>>,
    rows: nat,
    row: int,
    column: int,
)
    requires
        0 <= row < rows,
        0 <= column < columns.len(),
        columns[column]@[row] matches Some(arrival) ==> arrival.departure <= arrival.achieved,
    ensures
        ({
            let departure = plane_rows(columns, rows, departure_value())[row][column];
            let duration = plane_rows(columns, rows, duration_value())[row][column];
            let rides = plane_rows(columns, rows, round_value())[row][column];
            let stop = plane_rows(columns, rows, stop_value())[row][column];
            match columns[column]@[row] {
                Some(arrival) => {
                    &&& departure == arrival.departure
                    &&& departure + duration == arrival.achieved
                    &&& rides == arrival.rides
                    &&& stop == arrival.stop
                },
                None => departure == u32::MAX && duration == u32::MAX && rides == u32::MAX && stop
                    == u32::MAX,
            }
        }),
{
}

} // verus!
