//! Carriage queries: what may be carried and parked where, the better of the
//! two planes, and the legs of the best journey.

use crate::ids::{public_id, text_of};
use crate::legs::NetworkIds;
use crate::links::{after_walk, earlier};
use crate::time_rows::UNREACHABLE;
use vstd::prelude::*;

verus! {

/// Which trips carry the vehicle: those that say so, and, where the policy
/// allows, those that say nothing.
pub open spec fn carries(allowed: Option<bool>, allow_unknown: bool) -> bool {
    match allowed {
        Some(allowed) => allowed,
        None => allow_unknown,
    }
}

/// The per-trip carrying mask.
pub fn carrying_mask(bikes_allowed: &Vec<Option<bool>>, allow_unknown: bool) -> (mask: Vec<bool>)
    ensures
        mask@ == bikes_allowed@.map_values(
            |allowed: Option<bool>| carries(allowed, allow_unknown),
        ),
{
    let mut mask: Vec<bool> = Vec::new();
    let mut trip: usize = 0;
    while trip < bikes_allowed.len()
        invariant
            trip <= bikes_allowed@.len(),
            mask@ == bikes_allowed@.map_values(
                |allowed: Option<bool>| carries(allowed, allow_unknown),
            ).subrange(0, trip as int),
        decreases bikes_allowed.len() - trip,
    {
        mask.push(
            match bikes_allowed[trip] {
                Some(allowed) => allowed,
                None => allow_unknown,
            },
        );
        trip += 1;
        assert(mask@ =~= bikes_allowed@.map_values(
            |allowed: Option<bool>| carries(allowed, allow_unknown),
        ).subrange(0, trip as int));
    }
    assert(mask@ =~= bikes_allowed@.map_values(
        |allowed: Option<bool>| carries(allowed, allow_unknown),
    ));
    mask
}

/// Whether a stop is listed, or nothing restricts parking.
pub open spec fn parks(park_stops: Option<Seq<u32>>, stop: u32) -> bool {
    match park_stops {
        None => true,
        Some(stops) => stops.contains(stop),
    }
}

pub open spec fn stops_view(stops: Option<&Vec<u32>>) -> Option<Seq<u32>> {
    match stops {
        Some(stops) => Some(stops@),
        None => None,
    }
}

/// Which stops the vehicle may be parked at: the listed ones, or all.
pub fn park_mask(park_stops: Option<&Vec<u32>>, stop_count: usize) -> (mask: Vec<bool>)
    requires
        stop_count <= u32::MAX,
        park_stops matches Some(stops) ==> forall|i: int|
            0 <= i < stops@.len() ==> #[trigger] stops@[i] < stop_count,
    ensures
        mask@ == Seq::new(
            stop_count as nat,
            |stop: int| parks(stops_view(park_stops), stop as u32),
        ),
{
    let open: bool = park_stops.is_none();
    let mut mask: Vec<bool> = Vec::new();
    while mask.len() < stop_count
        invariant
            mask@.len() <= stop_count,
            forall|s: int| 0 <= s < mask@.len() ==> #[trigger] mask@[s] == open,
        decreases stop_count - mask.len(),
    {
        mask.push(open);
    }
    if let Some(stops) = park_stops {
        let mut index: usize = 0;
        while index < stops.len()
            invariant
                index <= stops@.len(),
                mask@.len() == stop_count <= u32::MAX,
                forall|i: int| 0 <= i < stops@.len() ==> #[trigger] stops@[i] < stop_count,
                forall|s: int|
                    0 <= s < stop_count ==> #[trigger] mask@[s] == stops@.subrange(
                        0,
                        index as int,
                    ).contains(s as u32),
            decreases stops.len() - index,
        {
            assert(stops@[index as int] < stop_count);
            let stop: u32 = stops[index];
            let ghost held = mask@;
            mask.set(stop as usize, true);
            proof {
                let upto = stops@.subrange(0, index as int);
                let next = stops@.subrange(0, index + 1);
                assert forall|s: int| 0 <= s < stop_count implies #[trigger] mask@[s]
                    == next.contains(s as u32) by {
                    if s == stop {
                        assert(next[index as int] == stop);
                    } else {
                        assert(mask@[s] == held[s]);
                        if next.contains(s as u32) {
                            let at = choose|at: int| 0 <= at < next.len() && next[at] == s as u32;
                            assert(upto[at] == s as u32);
                        }
                        if upto.contains(s as u32) {
                            let at = choose|at: int| 0 <= at < upto.len() && upto[at] == s as u32;
                            assert(next[at] == s as u32);
                        }
                    }
                }
            }
            index += 1;
        }
        assert(stops@.subrange(0, stops@.len() as int) =~= stops@);
    }
    assert(mask@ =~= Seq::new(
        stop_count as nat,
        |stop: int| parks(stops_view(park_stops), stop as u32),
    ));
    mask
}

/// The earlier arrival of the two planes at every stop.
pub open spec fn cross_plane(carrying: Seq<Option<u32>>, free: Seq<Option<u32>>) -> Seq<
    Option<u32>,
> {
    Seq::new(carrying.len(), |stop: int| earlier(carrying[stop], free[stop]))
}

/// The earliest arrival at every stop, whether the vehicle is still carried
/// or was parked.
pub fn plane_minimum(carrying: &Vec<Option<u32>>, free: &Vec<Option<u32>>) -> (best: Vec<Option<u32>>)
    requires
        carrying@.len() == free@.len(),
    ensures
        best@ == cross_plane(carrying@, free@),
{
    let mut best: Vec<Option<u32>> = Vec::new();
    let mut stop: usize = 0;
    while stop < carrying.len()
        invariant
            stop <= carrying@.len() == free@.len(),
            best@ == cross_plane(carrying@, free@).subrange(0, stop as int),
        decreases carrying.len() - stop,
    {
        let held: Option<u32> = match (carrying[stop], free[stop]) {
            (Some(left), Some(right)) => Some(
                if left <= right {
                    left
                } else {
                    right
                },
            ),
            (Some(left), None) => Some(left),
            (None, right) => right,
        };
        best.push(held);
        stop += 1;
        assert(best@ =~= cross_plane(carrying@, free@).subrange(0, stop as int));
    }
    assert(best@ =~= cross_plane(carrying@, free@));
    best
}

/// An egress offset of a plane with the label it starts from: the stop, the
/// walk out, and the best round with its arrival there.
#[derive(Debug, Clone, Copy)]
pub struct EgressOffer {
    pub carrying: bool,
    pub stop: u32,
    pub seconds: u32,
    pub label: Option<(u32, u32)>,
}

/// The winning egress: arrival, plane, round, stop and the walk out.
#[derive(Debug, Clone, Copy, PartialEq, Eq, Structural)]
pub struct EgressChoice {
    pub arrival: u32,
    pub carrying: bool,
    pub round: u32,
    pub stop: u32,
    pub seconds: u32,
}

pub open spec fn egress_choice(offer: EgressOffer) -> Option<EgressChoice> {
    match offer.label {
        Some((round, at_stop)) => match after_walk(Some(at_stop), offer.seconds) {
            Some(arrival) => Some(
                EgressChoice {
                    arrival,
                    carrying: offer.carrying,
                    round,
                    stop: offer.stop,
                    seconds: offer.seconds,
                },
            ),
            None => None,
        },
        None => None,
    }
}

/// The first offer with the earliest arrival among the first `count`.
pub open spec fn best_egress(offers: Seq<EgressOffer>, count: int) -> Option<EgressChoice>
    decreases count,
{
    if count <= 0 {
        None
    } else {
        let before = best_egress(offers, count - 1);
        match (before, egress_choice(offers[count - 1])) {
            (_, None) => before,
            (None, Some(choice)) => Some(choice),
            (Some(held), Some(choice)) => if choice.arrival < held.arrival {
                Some(choice)
            } else {
                before
            },
        }
    }
}

/// The best egress over both planes: the earliest arrival, the first offer
/// on ties.
pub fn carriage_best(offers: &Vec<EgressOffer>) -> (best: Option<EgressChoice>)
    ensures
        best == best_egress(offers@, offers@.len() as int),
        best matches Some(choice) ==> choice.seconds <= choice.arrival,
{
    let mut best: Option<EgressChoice> = None;
    let mut index: usize = 0;
    while index < offers.len()
        invariant
            index <= offers@.len(),
            best == best_egress(offers@, index as int),
            best matches Some(choice) ==> choice.seconds <= choice.arrival,
        decreases offers.len() - index,
    {
        let offer: EgressOffer = offers[index];
        if let Some((round, at_stop)) = offer.label {
            if let Some(arrival) = at_stop.checked_add(offer.seconds) {
                if arrival != UNREACHABLE {
                    let wins: bool = match best {
                        Some(held) => arrival < held.arrival,
                        None => true,
                    };
                    if wins {
                        best = Some(
                            EgressChoice {
                                arrival,
                                carrying: offer.carrying,
                                round,
                                stop: offer.stop,
                                seconds: offer.seconds,
                            },
                        );
                    }
                }
            }
        }
        index += 1;
    }
    best
}

/// The chosen egress arrives no later than any offer.
pub proof fn law_best_egress_is_earliest(offers: Seq<EgressOffer>, count: int, index: int)
    requires
        0 <= index < count <= offers.len(),
        egress_choice(offers[index]) is Some,
    ensures
        best_egress(offers, count) is Some,
        best_egress(offers, count)->0.arrival <= egress_choice(offers[index])->0.arrival,
    decreases count,
{
    if index < count - 1 {
        law_best_egress_is_earliest(offers, count - 1, index);
    }
}

/// A leg of a carriage journey.
#[derive(Debug, Clone, Copy, PartialEq, Eq, Structural)]
pub enum CarriageLeg {
    Access { carrying: bool, to_stop: u32, arrival: u32 },
    Park { stop: u32, at: u32 },
    Transit {
        trip: u32,
        board_stop: u32,
        alight_stop: u32,
        board_time: u32,
        alight_time: u32,
        bike_aboard: bool,
    },
    Transfer { from_stop: u32, to_stop: u32, departure: u32, arrival: u32, ride: bool },
}

/// What a carriage leg is reported with. `flag` is the leg's own mark: the
/// vehicle carried along, aboard, or ridden.
pub struct CarriageEntry {
    pub kind: &'static str,
    pub from_stop: Option<String>,
    pub to_stop: Option<String>,
    pub trip_id: Option<String>,
    pub departure: u32,
    pub arrival: u32,
    pub flag: Option<bool>,
}

/// A reported carriage leg as plain values.
#[verifier::ext_equal]
pub struct CarriageModel {
    pub kind: Seq<char>,
    pub from_stop: Option<Seq<char>>,
    pub to_stop: Option<Seq<char>>,
    pub trip_id: Option<Seq<char>>,
    pub departure: u32,
    pub arrival: u32,
    pub flag: Option<bool>,
}

impl View for CarriageEntry {
    type V = CarriageModel;

    open spec fn view(&self) -> CarriageModel {
        CarriageModel {
            kind: self.kind@,
            from_stop: text_of(self.from_stop),
            to_stop: text_of(self.to_stop),
            trip_id: text_of(self.trip_id),
            departure: self.departure,
            arrival: self.arrival,
            flag: self.flag,
        }
    }
}

/// How a carriage leg is reported; `departure` is the journey's.
pub open spec fn carriage_reported(leg: CarriageLeg, ids: NetworkIds, departure: u32) -> CarriageModel {
    match leg {
        CarriageLeg::Access { carrying, to_stop, arrival } => CarriageModel {
            kind: "access"@,
            from_stop: None,
            to_stop: Some(ids.stop_text(to_stop)),
            trip_id: None,
            departure,
            arrival,
            flag: Some(carrying),
        },
        CarriageLeg::Park { stop, at } => CarriageModel {
            kind: "park"@,
            from_stop: Some(ids.stop_text(stop)),
            to_stop: Some(ids.stop_text(stop)),
            trip_id: None,
            departure: at,
            arrival: at,
            flag: None,
        },
        CarriageLeg::Transit { trip, board_stop, alight_stop, board_time, alight_time, bike_aboard } =>
        CarriageModel {
            kind: "transit"@,
            from_stop: Some(ids.stop_text(board_stop)),
            to_stop: Some(ids.stop_text(alight_stop)),
            trip_id: Some(ids.trip_text(trip)),
            departure: board_time,
            arrival: alight_time,
            flag: Some(bike_aboard),
        },
        CarriageLeg::Transfer { from_stop, to_stop, departure, arrival, ride } => CarriageModel {
            kind: "transfer"@,
            from_stop: Some(ids.stop_text(from_stop)),
            to_stop: Some(ids.stop_text(to_stop)),
            trip_id: None,
            departure,
            arrival,
            flag: Some(ride),
        },
    }
}

pub open spec fn carriage_fits(leg: CarriageLeg, ids: NetworkIds) -> bool {
    match leg {
        CarriageLeg::Access { to_stop, .. } => to_stop < ids.stops@.len(),
        CarriageLeg::Park { stop, .. } => stop < ids.stops@.len(),
        CarriageLeg::Transit { trip, board_stop, alight_stop, .. } => trip < ids.trips@.len()
            && board_stop < ids.stops@.len() && alight_stop < ids.stops@.len(),
        CarriageLeg::Transfer { from_stop, to_stop, .. } => from_stop < ids.stops@.len() && to_stop
            < ids.stops@.len(),
    }
}

/// Reports one carriage leg.
fn carriage_entry(leg: &CarriageLeg, ids: &NetworkIds, departure: u32) -> (entry: CarriageEntry)
    requires
        carriage_fits(*leg, *ids),
    ensures
        entry@ == carriage_reported(*leg, *ids, departure),
{
    match *leg {
        CarriageLeg::Access { carrying, to_stop, arrival } => CarriageEntry {
            kind: "access",
            from_stop: None,
            to_stop: Some(ids.public_stop_id(to_stop)),
            trip_id: None,
            departure,
            arrival,
            flag: Some(carrying),
        },
        CarriageLeg::Park { stop, at } => CarriageEntry {
            kind: "park",
            from_stop: Some(ids.public_stop_id(stop)),
            to_stop: Some(ids.public_stop_id(stop)),
            trip_id: None,
            departure: at,
            arrival: at,
            flag: None,
        },
        CarriageLeg::Transit { trip, board_stop, alight_stop, board_time, alight_time, bike_aboard } => {
            let source = &ids.trips[trip as usize];
            CarriageEntry {
                kind: "transit",
                from_stop: Some(ids.public_stop_id(board_stop)),
                to_stop: Some(ids.public_stop_id(alight_stop)),
                trip_id: Some(
                    public_id(ids.feed_count, source.feed, source.id.as_str()),
                ),
                departure: board_time,
                arrival: alight_time,
                flag: Some(bike_aboard),
            }
        },
        CarriageLeg::Transfer { from_stop, to_stop, departure, arrival, ride } => CarriageEntry {
            kind: "transfer",
            from_stop: Some(ids.public_stop_id(from_stop)),
            to_stop: Some(ids.public_stop_id(to_stop)),
            trip_id: None,
            departure,
            arrival,
            flag: Some(ride),
        },
    }
}

/// A carriage journey: its times, the vehicles it boards, and its legs with
/// the egress last.
pub struct CarriageJourney {
    pub departure: u32,
    pub arrival: u32,
    pub rides: usize,
    pub legs: Vec<CarriageEntry>,
}

/// The vehicles boarded within the first `count` legs.
pub open spec fn carriage_rides(legs: Seq<CarriageLeg>, count: int) -> nat
    decreases count,
{
    if count <= 0 {
        0
    } else {
        carriage_rides(legs, count - 1) + if legs[count - 1] is Transit {
            1nat
        } else {
            0
        }
    }
}

/// The egress leg of a chosen journey: it leaves its stop so as to arrive
/// when the journey does.
pub open spec fn egress_leg(choice: EgressChoice, ids: NetworkIds) -> CarriageModel {
    CarriageModel {
        kind: "egress"@,
        from_stop: Some(ids.stop_text(choice.stop)),
        to_stop: None,
        trip_id: None,
        departure: (choice.arrival - choice.seconds) as u32,
        arrival: choice.arrival,
        flag: Some(choice.carrying),
    }
}

/// Assembles the best carriage journey from its legs and its egress.
pub fn carriage_journey(
    legs: &Vec<CarriageLeg>,
    choice: EgressChoice,
    ids: &NetworkIds,
    departure: u32,
) -> (journey: CarriageJourney)
    requires
        choice.seconds <= choice.arrival,
        choice.stop < ids.stops@.len(),
        forall|l: int| 0 <= l < legs@.len() ==> carriage_fits(#[trigger] legs@[l], *ids),
    ensures
        journey.departure == departure,
        journey.arrival == choice.arrival,
        journey.rides == carriage_rides(legs@, legs@.len() as int),
        journey.legs@.map_values(|entry: CarriageEntry| entry@) == legs@.map_values(
            |leg: CarriageLeg| carriage_reported(leg, *ids, departure),
        ).push(egress_leg(choice, *ids)),
{
    let ghost view = |entry: CarriageEntry| entry@;
    let ghost report = |leg: CarriageLeg| carriage_reported(leg, *ids, departure);
    let mut entries: Vec<CarriageEntry> = Vec::new();
    let mut rides: usize = 0;
    let mut index: usize = 0;
    assert(entries@.map_values(view) =~= legs@.map_values(report).subrange(0, 0));
    while index < legs.len()
        invariant
            index <= legs@.len(),
            rides <= index,
            rides == carriage_rides(legs@, index as int),
            forall|l: int| 0 <= l < legs@.len() ==> carriage_fits(#[trigger] legs@[l], *ids),
            view == |entry: CarriageEntry| entry@,
            report == |leg: CarriageLeg| carriage_reported(leg, *ids, departure),
            entries@.map_values(view) == legs@.map_values(report).subrange(0, index as int),
        decreases legs.len() - index,
    {
        assert(carriage_fits(legs@[index as int], *ids));
        let ghost before = entries@;
        if let CarriageLeg::Transit { .. } = legs[index] {
            rides += 1;
        }
        entries.push(carriage_entry(&legs[index], ids, departure));
        assert(entries@.map_values(view) =~= before.map_values(view).push(entries@.last()@));
        index += 1;
        assert(entries@.map_values(view) =~= legs@.map_values(report).subrange(0, index as int));
    }
    let ghost before = entries@;
    entries.push(
        CarriageEntry {
            kind: "egress",
            from_stop: Some(ids.public_stop_id(choice.stop)),
            to_stop: None,
            trip_id: None,
            departure: choice.arrival - choice.seconds,
            arrival: choice.arrival,
            flag: Some(choice.carrying),
        },
    );
    proof {
        assert(entries@.map_values(view) =~= before.map_values(view).push(entries@.last()@));
        assert(legs@.map_values(report).subrange(0, legs@.len() as int) =~= legs@.map_values(
            report,
        ));
    }
    CarriageJourney { departure, arrival: choice.arrival, rides, legs: entries }
}

/// A trip that says whether it takes a vehicle is taken at its word; one that
/// says nothing carries exactly where the policy allows it.
pub proof fn law_carrying_takes_trips_at_their_word(said: bool, allow_unknown: bool)
    ensures
        carries(Some(said), allow_unknown) == said,
        carries(None, allow_unknown) == allow_unknown,
{
}

/// Without a list every stop parks; with one exactly the listed stops do.
pub proof fn law_parking_stops_are_the_listed(stops: Seq<u32>, at: int, stop: u32)
    ensures
        parks(None, stop),
        0 <= at < stops.len() ==> parks(Some(stops), stops[at]),
        parks(Some(stops), stop) ==> exists|i: int| 0 <= i < stops.len() && stops[i] == stop,
        parks(Some(Seq::empty()), stop) ==> false,
{
}

/// The better plane at a stop is reached where either is, at the earlier of
/// the two arrivals.
pub proof fn law_cross_plane_is_the_earlier(
    carrying: Seq<Option<u32>>,
    free: Seq<Option<u32>>,
    stop: int,
)
    requires
        carrying.len() == free.len(),
        0 <= stop < carrying.len(),
    ensures
        ({
            let best = cross_plane(carrying, free);
            &&& best.len() == carrying.len()
            &&& best[stop] is None <==> carrying[stop] is None && free[stop] is None
            &&& best[stop] == carrying[stop] || best[stop] == free[stop]
            &&& carrying[stop] matches Some(at) ==> best[stop]->0 <= at
            &&& free[stop] matches Some(at) ==> best[stop]->0 <= at
        }),
{
}

/// Whether a choice is an offer: its plane, stop and walk, in the label's
/// round, arriving the walk after the label.
pub open spec fn takes_offer(choice: EgressChoice, offer: EgressOffer) -> bool {
    &&& offer.label matches Some((round, at_stop))
    &&& choice.round == round
    &&& choice.arrival == at_stop + offer.seconds
    &&& choice.carrying == offer.carrying
    &&& choice.stop == offer.stop
    &&& choice.seconds == offer.seconds
}

/// The chosen egress is one of the offers, arrives no later than any other
/// that ends within the clock's range, and earlier than every such offer
/// before it. There is a choice wherever some offer ends in range.
pub proof fn law_chosen_egress_is_the_first_earliest(
    offers: Seq<EgressOffer>,
    count: int,
)
    requires
        0 <= count <= offers.len(),
    ensures
        forall|i: int|
            0 <= i < count && (#[trigger] offers[i]).label is Some && (offers[i].label->0).1
                + offers[i].seconds < u32::MAX ==> best_egress(offers, count) is Some && best_egress(
                offers,
                count,
            )->0.arrival <= (offers[i].label->0).1 + offers[i].seconds,
        best_egress(offers, count) matches Some(choice) ==> choice.arrival < u32::MAX && exists|
            i: int,
        |
            0 <= i < count && takes_offer(choice, #[trigger] offers[i]) && forall|j: int|
                0 <= j < i && (#[trigger] offers[j]).label is Some && (offers[j].label->0).1
                    + offers[j].seconds < u32::MAX ==> choice.arrival < (offers[j].label->0).1
                    + offers[j].seconds,
    decreases count,
{
    if count > 0 {
        law_chosen_egress_is_the_first_earliest(offers, count - 1);
        let before = best_egress(offers, count - 1);
        if let Some(choice) = best_egress(offers, count) {
            if before != Some(choice) {
                assert(takes_offer(choice, offers[count - 1]));
            }
        }
    }
}

/// A reported leg keeps the leg's own times and flag: an access leaves with
/// the journey, and parking takes no time. It names the stops it joins, and a
/// trip only where it rides one.
pub proof fn law_reported_legs_keep_their_fields(
    leg: CarriageLeg,
    ids: NetworkIds,
    departure: u32,
)
    ensures
        ({
            let told = carriage_reported(leg, ids, departure);
            match leg {
                CarriageLeg::Access { carrying, to_stop, arrival } => told.departure == departure
                    && told.arrival == arrival && told.flag == Some(carrying) && told.from_stop is None
                    && told.to_stop == Some(ids.stop_text(to_stop)) && told.trip_id is None,
                CarriageLeg::Park { stop, at } => told.departure == at && told.arrival == at
                    && told.flag is None && told.from_stop == Some(ids.stop_text(stop))
                    && told.to_stop == told.from_stop && told.trip_id is None,
                CarriageLeg::Transit {
                    trip,
                    board_stop,
                    alight_stop,
                    board_time,
                    alight_time,
                    bike_aboard,
                } => told.departure == board_time && told.arrival == alight_time && told.flag
                    == Some(bike_aboard) && told.from_stop == Some(ids.stop_text(board_stop))
                    && told.to_stop == Some(ids.stop_text(alight_stop)) && told.trip_id == Some(
                    ids.trip_text(trip),
                ),
                CarriageLeg::Transfer { from_stop, to_stop, departure: leaves, arrival, ride } =>
                told.departure == leaves && told.arrival == arrival && told.flag == Some(ride)
                    && told.from_stop == Some(ids.stop_text(from_stop)) && told.to_stop == Some(
                    ids.stop_text(to_stop),
                ) && told.trip_id is None,
            }
        }),
{
}

/// The last leg walks off the chosen stop for exactly the choice's seconds
/// and ends when the journey does.
pub proof fn law_egress_leg_ends_the_journey(choice: EgressChoice, ids: NetworkIds)
    requires
        choice.seconds <= choice.arrival,
    ensures
        egress_leg(choice, ids).departure + choice.seconds == choice.arrival,
        egress_leg(choice, ids).arrival == choice.arrival,
        egress_leg(choice, ids).from_stop == Some(ids.stop_text(choice.stop)),
        egress_leg(choice, ids).to_stop is None,
        egress_leg(choice, ids).trip_id is None,
        egress_leg(choice, ids).flag == Some(choice.carrying),
{
}

/// A journey rides once for each transit leg: no legs ride nothing, a transit
/// leg adds a ride and any other leg none.
pub proof fn law_rides_count_transit_legs(legs: Seq<CarriageLeg>, next: CarriageLeg)
    ensures
        carriage_rides(Seq::empty(), 0) == 0,
        next is Transit ==> carriage_rides(legs.push(next), legs.len() as int + 1) == carriage_rides(
            legs,
            legs.len() as int,
        ) + 1,
        !(next is Transit) ==> carriage_rides(legs.push(next), legs.len() as int + 1) == carriage_rides(
            legs,
            legs.len() as int,
        ),
{
    lemma_rides_prefix(legs, legs.push(next), legs.len() as int);
}

proof fn lemma_rides_prefix(left: Seq<CarriageLeg>, right: Seq<CarriageLeg>, count: int)
    requires
        forall|l: int| 0 <= l < count ==> #[trigger] left[l] == right[l],
    ensures
        carriage_rides(left, count) == carriage_rides(right, count),
    decreases count,
{
    if count > 0 {
        assert(left[count - 1] == right[count - 1]);
        lemma_rides_prefix(left, right, count - 1);
    }
}

} // verus!
