//! One-pair results: which journeys walking leaves standing, and where the
//! walk itself stands among them.

use crate::bytes::{equal, f64_equal, f64_is_nan, f64_rank};
use vstd::prelude::*;

verus! {

/// A leg of a journey; stops and trips by index, times in seconds past the
/// service day's start.
#[derive(Debug, Clone, Copy, PartialEq, Eq, Structural)]
pub enum Leg {
    Access { to_stop: u32, departure: u32, arrival: u32 },
    Transit {
        trip: u32,
        board_stop: u32,
        alight_stop: u32,
        board_position: u32,
        alight_position: u32,
        board_time: u32,
        alight_time: u32,
    },
    Transfer { from_stop: u32, to_stop: u32, departure: u32, arrival: u32 },
    Egress { from_stop: u32, departure: u32, arrival: u32 },
}

#[derive(Debug)]
pub struct Journey {
    pub departure: u32,
    pub arrival: u32,
    pub legs: Vec<Leg>,
}

/// The vehicles boarded within the first `count` legs.
pub open spec fn rides_upto(legs: Seq<Leg>, count: int) -> nat
    decreases count,
{
    if count <= 0 {
        0
    } else {
        rides_upto(legs, count - 1) + if legs[count - 1] is Transit {
            1nat
        } else {
            0
        }
    }
}

impl Journey {
    /// How many vehicles a journey boards.
    pub open spec fn ridden(&self) -> nat {
        rides_upto(self.legs@, self.legs@.len() as int)
    }

    /// How many vehicles a journey boards.
    pub fn rides(&self) -> (rides: usize)
        ensures
            rides == self.ridden(),
    {
        let mut rides: usize = 0;
        let mut index: usize = 0;
        while index < self.legs.len()
            invariant
                index <= self.legs@.len(),
                rides <= index,
                rides == rides_upto(self.legs@, index as int),
            decreases self.legs.len() - index,
        {
            if let Leg::Transit { .. } = self.legs[index] {
                rides += 1;
            }
            index += 1;
        }
        rides
    }
}

/// Whether journeys arrive no earlier than they depart.
pub open spec fn journeys_forward(journeys: Seq<Journey>) -> bool {
    forall|j: int| 0 <= j < journeys.len() ==> (#[trigger] journeys[j]).departure
        <= journeys[j].arrival
}

/// The walk between two points: none at the very same coordinate, else the
/// street walk where there is one. Coordinates and meters are doubles' bits.
pub open spec fn direct_of(
    origin: (u64, u64),
    destination: (u64, u64),
    walk: Option<(u32, u64)>,
) -> Option<(u32, u64)> {
    if f64_equal(origin.0, destination.0) && f64_equal(origin.1, destination.1) {
        Some((0, 0))
    } else {
        walk
    }
}

/// The walking-only alternative of a pair. A destination at the origin's
/// exact coordinate is a zero walk.
pub fn direct_walk(
    origin: (u64, u64),
    destination: (u64, u64),
    walk: Option<(u32, u64)>,
) -> (direct: Option<(u32, u64)>)
    ensures
        direct == direct_of(origin, destination, walk),
{
    if equal(origin.0, destination.0) && equal(origin.1, destination.1) {
        Some((0, 0))
    } else {
        walk
    }
}

/// The earliest arrival among the first `count` journeys.
pub open spec fn fastest_of(journeys: Seq<Journey>, count: int) -> Option<u32>
    decreases count,
{
    if count <= 0 {
        None
    } else {
        let arrival = journeys[count - 1].arrival;
        match fastest_of(journeys, count - 1) {
            None => Some(arrival),
            Some(held) => Some(
                if arrival < held {
                    arrival
                } else {
                    held
                },
            ),
        }
    }
}

pub open spec fn clamped(sum: int) -> u32 {
    if sum > u32::MAX {
        u32::MAX
    } else {
        sum as u32
    }
}

/// Whether walking stays within a band of the fastest journey.
pub open spec fn within_band(
    walk_seconds: u32,
    departure: u32,
    journeys: Seq<Journey>,
    max_slower: Option<u32>,
) -> bool {
    match (max_slower, fastest_of(journeys, journeys.len() as int)) {
        (Some(band), Some(fastest)) => clamped(departure + walk_seconds) <= clamped(fastest + band),
        _ => true,
    }
}

/// Whether the walking-only journey stays within a `max_slower` band: its
/// arrival must sit within the band of the fastest transit journey. Without
/// the restriction, or when nothing rides, the walk always stays.
pub fn walk_within_band(
    walk_seconds: u32,
    departure: u32,
    journeys: &[Journey],
    max_slower: Option<u32>,
) -> (stays: bool)
    ensures
        stays == within_band(walk_seconds, departure, journeys@, max_slower),
{
    let band: u32 = match max_slower {
        Some(band) => band,
        None => return true,
    };
    let mut fastest: Option<u32> = None;
    let mut index: usize = 0;
    while index < journeys.len()
        invariant
            index <= journeys@.len(),
            fastest == fastest_of(journeys@, index as int),
        decreases journeys.len() - index,
    {
        let arrival: u32 = journeys[index].arrival;
        fastest = match fastest {
            None => Some(arrival),
            Some(held) => Some(
                if arrival < held {
                    arrival
                } else {
                    held
                },
            ),
        };
        index += 1;
    }
    match fastest {
        None => true,
        Some(fastest) => {
            let walked: u32 = departure.saturating_add(walk_seconds);
            let latest: u32 = fastest.saturating_add(band);
            walked <= latest
        },
    }
}

/// Dropping the journeys that walking beats does not change whether the walk
/// stays: a journey that leaves no earlier and is no faster arrives no
/// earlier than the walk, so it cannot be what keeps or drops it.
pub proof fn law_band_ignores_dominated(
    walk_seconds: u32,
    departure: u32,
    journeys: Seq<Journey>,
    dominated: Journey,
    max_slower: Option<u32>,
)
    requires
        dominated.departure >= departure,
        dominated.arrival - dominated.departure >= walk_seconds,
    ensures
        within_band(walk_seconds, departure, journeys.push(dominated), max_slower) == within_band(
            walk_seconds,
            departure,
            journeys,
            max_slower,
        ),
{
    let more = journeys.push(dominated);
    lemma_fastest_prefix(journeys, dominated, journeys.len() as int);
    assert(more[more.len() - 1] == dominated);
}

proof fn lemma_fastest_prefix(journeys: Seq<Journey>, last: Journey, count: int)
    requires
        0 <= count <= journeys.len(),
    ensures
        fastest_of(journeys.push(last), count) == fastest_of(journeys, count),
    decreases count,
{
    if count > 0 {
        lemma_fastest_prefix(journeys, last, count - 1);
    }
}

/// One entry of a result list: the walking-only journey, leaving and lasting
/// so many seconds, or a routed journey by position.
#[derive(Debug, Clone, Copy, PartialEq, Eq, Structural)]
pub enum Entry {
    Walk { departure: u32, seconds: u32 },
    Ridden { journey: usize },
}

/// When the direct walk leaves: at the departure, or so that it arrives at
/// the deadline; never where it would have to leave before the day.
pub open spec fn walk_leaves(direct: Option<u32>, at: u32, arrive_by: bool) -> Option<u32> {
    match direct {
        Some(seconds) => if !arrive_by {
            Some(at)
        } else if at >= seconds {
            Some((at - seconds) as u32)
        } else {
            None
        },
        None => None,
    }
}

/// Whether the direct walk leaves a journey standing. Departing, a journey
/// must be strictly faster than walking; arriving by a deadline, it must
/// leave later than the walk does.
pub open spec fn survives(journey: Journey, direct: Option<u32>, at: u32, arrive_by: bool) -> bool {
    match direct {
        Some(seconds) => if !arrive_by {
            journey.arrival - journey.departure < seconds
        } else {
            match walk_leaves(direct, at, arrive_by) {
                Some(leaves) => journey.departure > leaves,
                None => true,
            }
        },
        None => true,
    }
}

/// A journey that the walk drops loses nothing: leaving with that journey,
/// walking arrives no later than it; or, by a deadline, the walk leaves no
/// earlier.
pub proof fn law_dropped_journeys_are_walked(
    journey: Journey,
    direct: Option<u32>,
    at: u32,
    arrive_by: bool,
)
    requires
        !survives(journey, direct, at, arrive_by),
    ensures
        direct is Some,
        !arrive_by ==> journey.departure + direct->0 <= journey.arrival,
        arrive_by ==> walk_leaves(direct, at, arrive_by) is Some && walk_leaves(
            direct,
            at,
            arrive_by,
        )->0 >= journey.departure,
{
}

/// The surviving journeys among the first `count`.
pub open spec fn survivors(
    journeys: Seq<Journey>,
    direct: Option<u32>,
    at: u32,
    arrive_by: bool,
    count: int,
) -> Seq<usize>
    decreases count,
{
    if count <= 0 {
        Seq::empty()
    } else {
        let before = survivors(journeys, direct, at, arrive_by, count - 1);
        if survives(journeys[count - 1], direct, at, arrive_by) {
            before.push((count - 1) as usize)
        } else {
            before
        }
    }
}

fn surviving(journeys: &Vec<Journey>, direct: Option<u32>, at: u32, arrive_by: bool) -> (kept: Vec<
    usize,
>)
    requires
        journeys_forward(journeys@),
    ensures
        kept@ == survivors(journeys@, direct, at, arrive_by, journeys@.len() as int),
        forall|k: int| 0 <= k < kept@.len() ==> (#[trigger] kept@[k]) < journeys@.len(),
{
    let mut kept: Vec<usize> = Vec::new();
    let mut index: usize = 0;
    while index < journeys.len()
        invariant
            index <= journeys@.len(),
            journeys_forward(journeys@),
            kept@ == survivors(journeys@, direct, at, arrive_by, index as int),
            forall|k: int| 0 <= k < kept@.len() ==> (#[trigger] kept@[k]) < journeys@.len(),
        decreases journeys.len() - index,
    {
        assert(journeys@[index as int].departure <= journeys@[index as int].arrival);
        let departure: u32 = journeys[index].departure;
        let arrival: u32 = journeys[index].arrival;
        let stands: bool = match direct {
            Some(seconds) => if !arrive_by {
                arrival - departure < seconds
            } else if at >= seconds {
                departure > at - seconds
            } else {
                true
            },
            None => true,
        };
        if stands {
            kept.push(index);
        }
        index += 1;
    }
    kept
}

/// Whether one of the kept journeys rides nothing.
pub open spec fn any_unridden(journeys: Seq<Journey>, kept: Seq<usize>) -> bool {
    exists|k: int| 0 <= k < kept.len() && journeys[(#[trigger] kept[k]) as int].ridden() == 0
}

/// The walk's own entry: departing, wherever there is a direct walk; by a
/// deadline, where it can leave and no kept journey rides nothing already.
pub open spec fn walk_entry(
    journeys: Seq<Journey>,
    kept: Seq<usize>,
    direct: Option<u32>,
    at: u32,
    arrive_by: bool,
) -> Option<Entry> {
    match (direct, walk_leaves(direct, at, arrive_by)) {
        (Some(seconds), Some(departure)) => if arrive_by && any_unridden(journeys, kept) {
            None
        } else {
            Some(Entry::Walk { departure, seconds })
        },
        _ => None,
    }
}

pub open spec fn ridden_entries(kept: Seq<usize>) -> Seq<Entry> {
    kept.map_values(|journey: usize| Entry::Ridden { journey })
}

/// The entries of a one-pair result: departing, the walk leads; by a
/// deadline, it comes last, since every journey kept leaves later.
pub open spec fn pair_entries(
    journeys: Seq<Journey>,
    direct: Option<u32>,
    at: u32,
    arrive_by: bool,
) -> Seq<Entry> {
    let kept = survivors(journeys, direct, at, arrive_by, journeys.len() as int);
    match walk_entry(journeys, kept, direct, at, arrive_by) {
        Some(walk) => if arrive_by {
            ridden_entries(kept).push(walk)
        } else {
            seq![walk] + ridden_entries(kept)
        },
        None => ridden_entries(kept),
    }
}

fn unridden(journeys: &Vec<Journey>, kept: &Vec<usize>) -> (any: bool)
    requires
        forall|k: int| 0 <= k < kept@.len() ==> (#[trigger] kept@[k]) < journeys@.len(),
    ensures
        any == any_unridden(journeys@, kept@),
{
    let mut index: usize = 0;
    while index < kept.len()
        invariant
            index <= kept@.len(),
            forall|k: int| 0 <= k < kept@.len() ==> (#[trigger] kept@[k]) < journeys@.len(),
            forall|k: int|
                0 <= k < index ==> journeys@[(#[trigger] kept@[k]) as int].ridden() != 0,
        decreases kept.len() - index,
    {
        assert(kept@[index as int] < journeys@.len());
        if journeys[kept[index]].rides() == 0 {
            assert(journeys@[kept@[index as int] as int].ridden() == 0);
            return true;
        }
        index += 1;
    }
    false
}

/// The entries of a one-pair result at a departure, or by a deadline.
pub fn route_entries(journeys: &Vec<Journey>, direct: Option<u32>, at: u32, arrive_by: bool) -> (
    entries: Vec<Entry>)
    requires
        journeys_forward(journeys@),
    ensures
        entries@ == pair_entries(journeys@, direct, at, arrive_by),
        !arrive_by ==> (direct matches Some(seconds) ==> entries@.len() > 0 && entries@[0] == (
        Entry::Walk { departure: at, seconds })),
{
    let kept = surviving(journeys, direct, at, arrive_by);
    let leaves: Option<u32> = match direct {
        Some(seconds) => if !arrive_by {
            Some(at)
        } else if at >= seconds {
            Some(at - seconds)
        } else {
            None
        },
        None => None,
    };
    let mut walk: Option<Entry> = None;
    if let (Some(seconds), Some(departure)) = (direct, leaves) {
        if !arrive_by || !unridden(journeys, &kept) {
            walk = Some(Entry::Walk { departure, seconds });
        }
    }
    let mut entries: Vec<Entry> = Vec::new();
    if !arrive_by {
        if let Some(entry) = walk {
            entries.push(entry);
        }
    }
    let ghost lead = entries@;
    let ghost ridden = ridden_entries(kept@);
    let mut index: usize = 0;
    assert(lead + ridden.subrange(0, 0) =~= lead);
    while index < kept.len()
        invariant
            index <= kept@.len(),
            ridden == ridden_entries(kept@),
            entries@ == lead + ridden.subrange(0, index as int),
        decreases kept.len() - index,
    {
        entries.push(Entry::Ridden { journey: kept[index] });
        index += 1;
        assert(entries@ =~= lead + ridden.subrange(0, index as int));
    }
    assert(ridden.subrange(0, ridden.len() as int) =~= ridden);
    if arrive_by {
        assert(lead + ridden =~= ridden);
        if let Some(entry) = walk {
            entries.push(entry);
        }
    } else {
        proof {
            if walk is Some {
                assert(lead =~= seq![walk->0]);
            } else {
                assert(lead + ridden =~= ridden);
            }
        }
    }
    entries
}

/// Departing, the walking-only journey leads and leaves at the departure, and
/// every journey behind it is strictly faster than walking.
pub proof fn law_departing_walk_leads(journeys: Seq<Journey>, seconds: u32, at: u32, index: int)
    requires
        journeys.len() <= usize::MAX,
        0 < index < pair_entries(journeys, Some(seconds), at, false).len(),
    ensures
        ({
            let entries = pair_entries(journeys, Some(seconds), at, false);
            &&& entries[0] == (Entry::Walk { departure: at, seconds })
            &&& entries[index] matches Entry::Ridden { journey } && journey < journeys.len()
                && journeys[journey as int].arrival - journeys[journey as int].departure < seconds
        }),
{
    let kept = survivors(journeys, Some(seconds), at, false, journeys.len() as int);
    lemma_survivors(journeys, Some(seconds), at, false, journeys.len() as int);
    let entries = pair_entries(journeys, Some(seconds), at, false);
    assert(entries[index] == ridden_entries(kept)[index - 1]);
    assert(kept[index - 1] < journeys.len());
}

/// Arriving by a deadline, every journey listed before the walk leaves
/// later than it.
pub proof fn law_deadline_walk_leaves_last(
    journeys: Seq<Journey>,
    direct: Option<u32>,
    at: u32,
    index: int,
)
    requires
        walk_leaves(direct, at, true) is Some,
        journeys.len() <= usize::MAX,
        0 <= index < survivors(journeys, direct, at, true, journeys.len() as int).len(),
    ensures
        ({
            let kept = survivors(journeys, direct, at, true, journeys.len() as int);
            &&& kept[index] < journeys.len()
            &&& journeys[kept[index] as int].departure > walk_leaves(direct, at, true)->0
        }),
{
    lemma_survivors(journeys, direct, at, true, journeys.len() as int);
}

proof fn lemma_survivors(
    journeys: Seq<Journey>,
    direct: Option<u32>,
    at: u32,
    arrive_by: bool,
    count: int,
)
    requires
        0 <= count <= journeys.len() <= usize::MAX,
    ensures
        forall|k: int|
            0 <= k < survivors(journeys, direct, at, arrive_by, count).len() ==> (
            #[trigger] survivors(journeys, direct, at, arrive_by, count)[k]) < count && survives(
                journeys[survivors(journeys, direct, at, arrive_by, count)[k] as int],
                direct,
                at,
                arrive_by,
            ),
    decreases count,
{
    if count > 0 {
        lemma_survivors(journeys, direct, at, arrive_by, count - 1);
        let before = survivors(journeys, direct, at, arrive_by, count - 1);
        let after = survivors(journeys, direct, at, arrive_by, count);
        assert forall|k: int| 0 <= k < after.len() implies #[trigger] after[k] < count && survives(
            journeys[after[k] as int],
            direct,
            at,
            arrive_by,
        ) by {
            if k < before.len() {
                assert(after[k] == before[k]);
            }
        }
    }
}

/// Two streams in descending order of departure, merged: equal departures
/// put the walk first, which rides nothing.
pub open spec fn merged_entries(
    placements: Seq<(u32, u32)>,
    journeys: Seq<Journey>,
    placement: int,
    journey: int,
) -> Seq<Entry>
    decreases journeys.len() - journey, placements.len() - placement,
{
    if journey < journeys.len() {
        if placement < placements.len() && placements[placement].0 >= journeys[journey].departure {
            seq![placed_entry(placements[placement])] + merged_entries(
                placements,
                journeys,
                placement + 1,
                journey,
            )
        } else {
            seq![Entry::Ridden { journey: journey as usize }] + merged_entries(
                placements,
                journeys,
                placement,
                journey + 1,
            )
        }
    } else if placement < placements.len() {
        seq![placed_entry(placements[placement])] + merged_entries(
            placements,
            journeys,
            placement + 1,
            journey,
        )
    } else {
        Seq::empty()
    }
}

/// A walk placed to leave and arrive at given times.
pub open spec fn placed_entry(placement: (u32, u32)) -> Entry {
    Entry::Walk { departure: placement.0, seconds: (placement.1 - placement.0) as u32 }
}

pub open spec fn placements_forward(placements: Seq<(u32, u32)>) -> bool {
    forall|p: int|
        0 <= p < placements.len() ==> (#[trigger] placements[p]).0 <= placements[p].1
}

/// The entries of a windowed arrive-by result: the journeys and the walk's
/// placements as they came, merged by departure; without a direct walk the
/// journeys alone.
pub fn windowed_entries(
    journeys: &Vec<Journey>,
    placements: &Vec<(u32, u32)>,
    has_walk: bool,
) -> (entries: Vec<Entry>)
    requires
        placements_forward(placements@),
    ensures
        entries@ == merged_entries(
            if has_walk {
                placements@
            } else {
                Seq::empty()
            },
            journeys@,
            0,
            0,
        ),
{
    let ghost walks = if has_walk {
        placements@
    } else {
        Seq::empty()
    };
    let count: usize = if has_walk {
        placements.len()
    } else {
        0
    };
    let ghost all = merged_entries(walks, journeys@, 0, 0);
    let mut entries: Vec<Entry> = Vec::new();
    let mut placement: usize = 0;
    let mut journey: usize = 0;
    assert(entries@ + all =~= all);
    while placement < count || journey < journeys.len()
        invariant
            placement <= count == walks.len(),
            count <= placements@.len(),
            journey <= journeys@.len(),
            has_walk ==> walks == placements@,
            !has_walk ==> count == 0,
            placements_forward(placements@),
            entries@ + merged_entries(walks, journeys@, placement as int, journey as int) == all,
        decreases (count - placement) + (journeys.len() - journey),
    {
        let ghost rest = merged_entries(walks, journeys@, placement as int, journey as int);
        let ghost held = entries@;
        let walk_first: bool = placement < count && (journey >= journeys.len()
            || placements[placement].0 >= journeys[journey].departure);
        if walk_first {
            let (departure, arrival): (u32, u32) = placements[placement];
            assert(placements@[placement as int].0 <= placements@[placement as int].1);
            entries.push(Entry::Walk { departure, seconds: arrival - departure });
            placement += 1;
        } else {
            entries.push(Entry::Ridden { journey });
            journey += 1;
        }
        proof {
            let after = merged_entries(walks, journeys@, placement as int, journey as int);
            assert(rest == seq![entries@.last()] + after);
            assert(held + rest =~= entries@ + after);
        }
    }
    assert(merged_entries(walks, journeys@, placement as int, journey as int) =~= Seq::empty());
    assert(entries@ + Seq::<Entry>::empty() =~= entries@);
    entries
}

pub open spec fn entry_departure(entry: Entry, journeys: Seq<Journey>) -> u32 {
    match entry {
        Entry::Walk { departure, .. } => departure,
        Entry::Ridden { journey } => journeys[journey as int].departure,
    }
}

pub open spec fn departs_no_later(entries: Seq<Entry>, journeys: Seq<Journey>, limit: u32) -> bool {
    forall|i: int|
        0 <= i < entries.len() ==> entry_departure(#[trigger] entries[i], journeys) <= limit
}

/// Merging two descending streams keeps the list descending.
pub proof fn law_merge_stays_descending(
    placements: Seq<(u32, u32)>,
    journeys: Seq<Journey>,
    placement: int,
    journey: int,
    limit: u32,
)
    requires
        0 <= placement <= placements.len(),
        0 <= journey <= journeys.len() <= usize::MAX,
        forall|i: int, j: int|
            0 <= i <= j < placements.len() ==> (#[trigger] placements[i]).0 >= (
            #[trigger] placements[j]).0,
        forall|i: int, j: int|
            0 <= i <= j < journeys.len() ==> (#[trigger] journeys[i]).departure >= (
            #[trigger] journeys[j]).departure,
        placement < placements.len() ==> placements[placement].0 <= limit,
        journey < journeys.len() ==> journeys[journey].departure <= limit,
    ensures
        ({
            let entries = merged_entries(placements, journeys, placement, journey);
            &&& departs_no_later(entries, journeys, limit)
            &&& forall|i: int, j: int|
                0 <= i <= j < entries.len() ==> entry_departure(#[trigger] entries[i], journeys)
                    >= entry_departure(#[trigger] entries[j], journeys)
        }),
    decreases (placements.len() - placement) + (journeys.len() - journey),
{
    let entries = merged_entries(placements, journeys, placement, journey);
    if journey < journeys.len() || placement < placements.len() {
        let walk_first = placement < placements.len() && (journey >= journeys.len()
            || placements[placement].0 >= journeys[journey].departure);
        let first = if walk_first {
            placements[placement].0
        } else {
            journeys[journey].departure
        };
        let (next_placement, next_journey) = if walk_first {
            (placement + 1, journey)
        } else {
            (placement, journey + 1)
        };
        law_merge_stays_descending(placements, journeys, next_placement, next_journey, first);
        let rest = merged_entries(placements, journeys, next_placement, next_journey);
        assert(entries =~= seq![entries[0]] + rest);
        assert forall|i: int| 0 <= i < entries.len() implies entry_departure(
            #[trigger] entries[i],
            journeys,
        ) <= limit by {
            if i > 0 {
                assert(entries[i] == rest[i - 1]);
            }
        }
        assert forall|i: int, j: int| 0 <= i <= j < entries.len() implies entry_departure(
            #[trigger] entries[i],
            journeys,
        ) >= entry_departure(#[trigger] entries[j], journeys) by {
            if i > 0 {
                assert(entries[i] == rest[i - 1]);
            }
            if j > 0 {
                assert(entries[j] == rest[j - 1]);
            }
        }
    }
}

/// The entries of a multicriteria cell: the walk leads where it can be drawn
/// and stays within the band; then the journeys strictly faster than it.
pub open spec fn cell_entries(
    journeys: Seq<Journey>,
    direct: Option<u32>,
    drawable: bool,
    departure: u32,
    max_slower: Option<u32>,
) -> Seq<Entry> {
    let kept = ridden_entries(
        survivors(journeys, direct, departure, false, journeys.len() as int),
    );
    match direct {
        Some(seconds) => if drawable && within_band(seconds, departure, journeys, max_slower) {
            seq![Entry::Walk { departure, seconds }] + kept
        } else {
            kept
        },
        None => kept,
    }
}

/// The entries of a multicriteria cell at a departure.
pub fn frontier_entries(
    journeys: &Vec<Journey>,
    direct: Option<u32>,
    drawable: bool,
    departure: u32,
    max_slower: Option<u32>,
) -> (entries: Vec<Entry>)
    requires
        journeys_forward(journeys@),
    ensures
        entries@ == cell_entries(journeys@, direct, drawable, departure, max_slower),
{
    let kept = surviving(journeys, direct, departure, false);
    let mut entries: Vec<Entry> = Vec::new();
    if let Some(seconds) = direct {
        if drawable && walk_within_band(seconds, departure, journeys.as_slice(), max_slower) {
            entries.push(Entry::Walk { departure, seconds });
        }
    }
    let ghost lead = entries@;
    let ghost ridden = ridden_entries(kept@);
    let mut index: usize = 0;
    assert(lead + ridden.subrange(0, 0) =~= lead);
    while index < kept.len()
        invariant
            index <= kept@.len(),
            ridden == ridden_entries(kept@),
            entries@ == lead + ridden.subrange(0, index as int),
        decreases kept.len() - index,
    {
        entries.push(Entry::Ridden { journey: kept[index] });
        index += 1;
        assert(entries@ =~= lead + ridden.subrange(0, index as int));
    }
    proof {
        assert(ridden.subrange(0, ridden.len() as int) =~= ridden);
        if lead.len() == 0 {
            assert(lead + ridden =~= ridden);
        }
    }
    entries
}

/// Whether the direct walk is no worse than a journey: departing, it takes no
/// longer; by a deadline, it can leave on the day at all, and leaves no
/// earlier.
pub open spec fn walk_dominates(
    departure: u32,
    arrival: u32,
    direct: Option<u32>,
    at: u32,
    arrive_by: bool,
) -> bool {
    direct matches Some(seconds) && if arrive_by {
        seconds <= at && departure <= at - seconds
    } else {
        seconds <= arrival - departure
    }
}

/// The journeys that walking leaves standing are those it does not dominate:
/// each is listed, once, in the order of the journeys, and no other is.
pub proof fn law_undominated_journeys_stand(
    journeys: Seq<Journey>,
    direct: Option<u32>,
    at: u32,
    arrive_by: bool,
    count: int,
)
    requires
        0 <= count <= journeys.len() <= usize::MAX,
    ensures
        ({
            let kept = survivors(journeys, direct, at, arrive_by, count);
            &&& forall|j: int|
                0 <= j < count ==> (kept.contains(j as usize) <==> !walk_dominates(
                    (#[trigger] journeys[j]).departure,
                    journeys[j].arrival,
                    direct,
                    at,
                    arrive_by,
                ))
            &&& forall|k: int| 0 <= k < kept.len() ==> (#[trigger] kept[k]) < count
            &&& forall|i: int, k: int|
                0 <= i < k < kept.len() ==> (#[trigger] kept[i]) < (#[trigger] kept[k])
        }),
    decreases count,
{
    if count > 0 {
        law_undominated_journeys_stand(journeys, direct, at, arrive_by, count - 1);
        let before = survivors(journeys, direct, at, arrive_by, count - 1);
        let kept = survivors(journeys, direct, at, arrive_by, count);
        assert forall|j: int| 0 <= j < count implies (kept.contains(j as usize)
            <==> !walk_dominates(
            (#[trigger] journeys[j]).departure,
            journeys[j].arrival,
            direct,
            at,
            arrive_by,
        )) by {
            if j < count - 1 {
                if before.contains(j as usize) {
                    let k = choose|k: int| 0 <= k < before.len() && before[k] == j as usize;
                    assert(kept[k] == j as usize);
                }
                if kept.contains(j as usize) {
                    let k = choose|k: int| 0 <= k < kept.len() && kept[k] == j as usize;
                    if k < before.len() {
                        assert(before[k] == j as usize);
                    }
                }
            } else {
                if !walk_dominates(
                    journeys[j].departure,
                    journeys[j].arrival,
                    direct,
                    at,
                    arrive_by,
                ) {
                    assert(kept[kept.len() - 1] == j as usize);
                } else if kept.contains(j as usize) {
                    let k = choose|k: int| 0 <= k < kept.len() && kept[k] == j as usize;
                    assert(before[k] < count - 1);
                }
            }
        }
    }
}

/// A one-pair result lists every journey that the walk does not dominate, and
/// no other, once each and in the order of the journeys; without a direct walk
/// it lists them all. Departing, the walk leads wherever there is one. By a
/// deadline it ends the list, leaving so as to arrive at the deadline, where
/// it can and no listed journey rides nothing already.
pub proof fn law_results_list_undominated_journeys(
    journeys: Seq<Journey>,
    direct: Option<u32>,
    at: u32,
    arrive_by: bool,
)
    requires
        journeys.len() <= usize::MAX,
    ensures
        ({
            let entries = pair_entries(journeys, direct, at, arrive_by);
            &&& forall|j: int|
                0 <= j < journeys.len() ==> (entries.contains(
                    Entry::Ridden { journey: j as usize },
                ) <==> !walk_dominates(
                    (#[trigger] journeys[j]).departure,
                    journeys[j].arrival,
                    direct,
                    at,
                    arrive_by,
                ))
            &&& forall|i: int|
                0 <= i < entries.len() && (#[trigger] entries[i]) is Ridden ==> entries[i]->journey
                    < journeys.len()
            &&& forall|i: int, k: int|
                0 <= i < k < entries.len() && (#[trigger] entries[i]) is Ridden && (
                #[trigger] entries[k]) is Ridden ==> entries[i]->journey < entries[k]->journey
            &&& direct is None ==> entries.len() == journeys.len() && forall|j: int|
                0 <= j < journeys.len() ==> (#[trigger] entries[j]) == (Entry::Ridden {
                    journey: j as usize,
                })
            &&& !arrive_by ==> (direct matches Some(seconds) ==> entries.len() > 0 && entries[0]
                == (Entry::Walk { departure: at, seconds }) && forall|i: int|
                1 <= i < entries.len() ==> (#[trigger] entries[i]) is Ridden)
            &&& arrive_by ==> (direct matches Some(seconds) ==> {
                let unridden = exists|i: int|
                    0 <= i < entries.len() && (#[trigger] entries[i]) is Ridden
                        && journeys[entries[i]->journey as int].ridden() == 0;
                let walks = seconds <= at && !unridden;
                &&& walks ==> entries.len() > 0 && entries[entries.len() - 1] == (Entry::Walk {
                    departure: (at - seconds) as u32,
                    seconds,
                }) && forall|i: int|
                    0 <= i < entries.len() - 1 ==> (#[trigger] entries[i]) is Ridden
                &&& !walks ==> forall|i: int|
                    0 <= i < entries.len() ==> (#[trigger] entries[i]) is Ridden
            })
        }),
{
    let kept = survivors(journeys, direct, at, arrive_by, journeys.len() as int);
    let entries = pair_entries(journeys, direct, at, arrive_by);
    let listed = ridden_entries(kept);
    law_undominated_journeys_stand(journeys, direct, at, arrive_by, journeys.len() as int);
    let walk = walk_entry(journeys, kept, direct, at, arrive_by);
    let lead: int = if walk is Some && !arrive_by {
        1
    } else {
        0
    };
    assert forall|k: int| 0 <= k < kept.len() implies entries[lead + k] == (Entry::Ridden {
        journey: #[trigger] kept[k],
    }) by {
        assert(listed[k] == (Entry::Ridden { journey: kept[k] }));
    }
    assert forall|j: int| 0 <= j < journeys.len() implies (entries.contains(
        Entry::Ridden { journey: j as usize },
    ) <==> !walk_dominates(
        (#[trigger] journeys[j]).departure,
        journeys[j].arrival,
        direct,
        at,
        arrive_by,
    )) by {
        let entry = Entry::Ridden { journey: j as usize };
        if kept.contains(j as usize) {
            let k = choose|k: int| 0 <= k < kept.len() && kept[k] == j as usize;
            assert(entries[lead + k] == entry);
        }
        if entries.contains(entry) {
            let i = choose|i: int| 0 <= i < entries.len() && entries[i] == entry;
            assert(kept[i - lead] == j as usize);
        }
    }
    assert forall|i: int, k: int|
        0 <= i < k < entries.len() && (#[trigger] entries[i]) is Ridden && (
        #[trigger] entries[k]) is Ridden implies entries[i]->journey < entries[k]->journey by {
        assert(entries[i]->journey == kept[i - lead]);
        assert(entries[k]->journey == kept[k - lead]);
    }
    if direct is None {
        lemma_all_kept(journeys, at, arrive_by, journeys.len() as int);
    }
    if arrive_by {
        if let Some(seconds) = direct {
            let unridden = exists|i: int|
                0 <= i < entries.len() && (#[trigger] entries[i]) is Ridden
                    && journeys[entries[i]->journey as int].ridden() == 0;
            if any_unridden(journeys, kept) {
                let k = choose|k: int|
                    0 <= k < kept.len() && journeys[(#[trigger] kept[k]) as int].ridden() == 0;
                assert(entries[lead + k] is Ridden);
            }
            if unridden {
                let i = choose|i: int|
                    0 <= i < entries.len() && (#[trigger] entries[i]) is Ridden
                        && journeys[entries[i]->journey as int].ridden() == 0;
                assert(kept[i] == entries[i]->journey);
            }
            assert(unridden == any_unridden(journeys, kept));
            assert forall|i: int| 0 <= i < kept.len() implies (#[trigger] entries[i]) is Ridden by {
                assert(entries[lead + i] == (Entry::Ridden { journey: kept[i] }));
            }
        }
    } else if direct is Some {
        assert forall|i: int| 1 <= i < entries.len() implies (#[trigger] entries[i]) is Ridden by {
            assert(entries[lead + (i - 1)] == (Entry::Ridden { journey: kept[i - 1] }));
        }
    }
}

proof fn lemma_all_kept(journeys: Seq<Journey>, at: u32, arrive_by: bool, count: int)
    requires
        0 <= count <= journeys.len() <= usize::MAX,
    ensures
        survivors(journeys, None, at, arrive_by, count).len() == count,
        forall|j: int|
            0 <= j < count ==> (#[trigger] survivors(journeys, None, at, arrive_by, count)[j])
                == j,
    decreases count,
{
    if count > 0 {
        lemma_all_kept(journeys, at, arrive_by, count - 1);
    }
}

/// Whether a journey takes less time than the walk, where there is one.
pub open spec fn outruns(journey: Journey, direct: Option<u32>) -> bool {
    direct matches Some(seconds) ==> journey.arrival - journey.departure < seconds
}

/// A multicriteria cell lists the journeys strictly faster than walking, in
/// their order, all of them where there is no walk; the walk leads them where
/// it can be drawn and arrives no later than the band after the earliest
/// journey.
pub proof fn law_cells_list_faster_journeys(
    journeys: Seq<Journey>,
    direct: Option<u32>,
    drawable: bool,
    departure: u32,
    max_slower: Option<u32>,
)
    requires
        journeys.len() <= usize::MAX,
    ensures
        ({
            let entries = cell_entries(journeys, direct, drawable, departure, max_slower);
            &&& forall|j: int|
                0 <= j < journeys.len() ==> (entries.contains(
                    Entry::Ridden { journey: j as usize },
                ) <==> outruns(#[trigger] journeys[j], direct))
            &&& forall|i: int, k: int|
                0 <= i < k < entries.len() && (#[trigger] entries[i]) is Ridden && (
                #[trigger] entries[k]) is Ridden ==> entries[i]->journey < entries[k]->journey
            &&& forall|i: int|
                1 <= i < entries.len() ==> (#[trigger] entries[i]) is Ridden
            &&& entries.len() > 0 && entries[0] is Walk ==> drawable && direct is Some
                && entries[0] == (Entry::Walk { departure, seconds: direct->0 })
            &&& entries.len() > 0 && entries[0] is Walk <==> drawable && direct is Some
                && within_band(direct->0, departure, journeys, max_slower)
        }),
{
    let kept = survivors(journeys, direct, departure, false, journeys.len() as int);
    let entries = cell_entries(journeys, direct, drawable, departure, max_slower);
    let listed = ridden_entries(kept);
    law_undominated_journeys_stand(journeys, direct, departure, false, journeys.len() as int);
    let lead: int = entries.len() - kept.len();
    assert forall|k: int| 0 <= k < kept.len() implies entries[lead + k] == (Entry::Ridden {
        journey: #[trigger] kept[k],
    }) by {
        assert(listed[k] == (Entry::Ridden { journey: kept[k] }));
    }
    assert forall|i: int| lead <= i < entries.len() implies (#[trigger] entries[i]) is Ridden
        && entries[i]->journey == kept[i - lead] by {
        assert(entries[lead + (i - lead)] == (Entry::Ridden { journey: kept[i - lead] }));
    }
    assert(lead == 0 || lead == 1);
    if entries.len() > 0 && lead == 0 {
        assert(entries[0] is Ridden);
    }
    assert forall|i: int, k: int|
        0 <= i < k < entries.len() && (#[trigger] entries[i]) is Ridden && (
        #[trigger] entries[k]) is Ridden implies entries[i]->journey < entries[k]->journey by {
        assert(kept[i - lead] < kept[k - lead]);
    }
    assert forall|j: int| 0 <= j < journeys.len() implies (entries.contains(
        Entry::Ridden { journey: j as usize },
    ) <==> outruns(#[trigger] journeys[j], direct)) by {
        let entry = Entry::Ridden { journey: j as usize };
        assert(kept.contains(j as usize) <==> !walk_dominates(
            journeys[j].departure,
            journeys[j].arrival,
            direct,
            departure,
            false,
        ));
        if kept.contains(j as usize) {
            let k = choose|k: int| 0 <= k < kept.len() && kept[k] == j as usize;
            assert(entries[lead + k] == entry);
        }
        if entries.contains(entry) {
            let i = choose|i: int| 0 <= i < entries.len() && entries[i] == entry;
            assert(kept[i - lead] == j as usize);
        }
    }
}

/// Walking stays within a band exactly where it arrives no later than the
/// band after some journey that none arrives before; with no band, or no
/// journey, it always does. Clocks stop at the largest time.
pub proof fn law_band_follows_the_earliest_arrival(
    walk_seconds: u32,
    departure: u32,
    journeys: Seq<Journey>,
    band: u32,
    earliest: int,
)
    requires
        0 <= earliest < journeys.len(),
        forall|j: int|
            0 <= j < journeys.len() ==> (#[trigger] journeys[j]).arrival
                >= journeys[earliest].arrival,
    ensures
        within_band(walk_seconds, departure, journeys, None),
        within_band(walk_seconds, departure, Seq::empty(), Some(band)),
        departure + walk_seconds <= u32::MAX ==> (within_band(
            walk_seconds,
            departure,
            journeys,
            Some(band),
        ) <==> departure + walk_seconds <= journeys[earliest].arrival + band),
        departure + walk_seconds > u32::MAX ==> (within_band(
            walk_seconds,
            departure,
            journeys,
            Some(band),
        ) <==> journeys[earliest].arrival + band >= u32::MAX),
{
    lemma_fastest_of(journeys, journeys.len() as int);
    let fastest = fastest_of(journeys, journeys.len() as int)->0;
    assert(fastest == journeys[earliest].arrival);
}

proof fn lemma_fastest_of(journeys: Seq<Journey>, count: int)
    requires
        0 <= count <= journeys.len(),
    ensures
        match fastest_of(journeys, count) {
            None => count == 0,
            Some(least) => {
                &&& exists|j: int| 0 <= j < count && (#[trigger] journeys[j]).arrival == least
                &&& forall|j: int| 0 <= j < count ==> (#[trigger] journeys[j]).arrival >= least
            },
        },
    decreases count,
{
    if count > 0 {
        lemma_fastest_of(journeys, count - 1);
        let arrival = journeys[count - 1].arrival;
        if let Some(held) = fastest_of(journeys, count - 1) {
            let j = choose|j: int| 0 <= j < count - 1 && (#[trigger] journeys[j]).arrival == held;
            assert(journeys[j].arrival == held && journeys[count - 1].arrival == arrival);
        }
    }
}

/// A merged list holds every journey and every placement of the walk, once
/// each: the journeys keep their order, and so do the placements.
pub proof fn law_merged_entries_hold_both_streams(
    placements: Seq<(u32, u32)>,
    journeys: Seq<Journey>,
    placement: int,
    journey: int,
)
    requires
        0 <= placement <= placements.len(),
        0 <= journey <= journeys.len() <= usize::MAX,
    ensures
        ({
            let entries = merged_entries(placements, journeys, placement, journey);
            &&& entries.filter(|entry: Entry| entry is Ridden) == Seq::new(
                (journeys.len() - journey) as nat,
                |k: int| Entry::Ridden { journey: (journey + k) as usize },
            )
            &&& entries.filter(|entry: Entry| entry is Walk) == Seq::new(
                (placements.len() - placement) as nat,
                |k: int|
                    Entry::Walk {
                        departure: placements[placement + k].0,
                        seconds: (placements[placement + k].1 - placements[placement + k].0) as u32,
                    },
            )
        }),
{
    lemma_merged_rides(placements, journeys, placement, journey);
    lemma_merged_walks(placements, journeys, placement, journey);
}

proof fn lemma_merged_rides(
    placements: Seq<(u32, u32)>,
    journeys: Seq<Journey>,
    placement: int,
    journey: int,
)
    requires
        0 <= placement <= placements.len(),
        0 <= journey <= journeys.len() <= usize::MAX,
    ensures
        merged_entries(placements, journeys, placement, journey).filter(
            |entry: Entry| entry is Ridden,
        ) == Seq::new(
            (journeys.len() - journey) as nat,
            |k: int| Entry::Ridden { journey: (journey + k) as usize },
        ),
    decreases (placements.len() - placement) + (journeys.len() - journey),
{
    let entries = merged_entries(placements, journeys, placement, journey);
    let rides = |entry: Entry| entry is Ridden;
    let expected = Seq::new(
        (journeys.len() - journey) as nat,
        |k: int| Entry::Ridden { journey: (journey + k) as usize },
    );
    if journey < journeys.len() || placement < placements.len() {
        let walk_first = placement < placements.len() && (journey >= journeys.len()
            || placements[placement].0 >= journeys[journey].departure);
        if walk_first {
            let first = placed_entry(placements[placement]);
            let rest = merged_entries(placements, journeys, placement + 1, journey);
            lemma_merged_rides(placements, journeys, placement + 1, journey);
            Seq::filter_distributes_over_add(seq![first], rest, rides);
            lemma_filter_one(first, rides);
            assert(Seq::<Entry>::empty() + rest.filter(rides) =~= rest.filter(rides));
        } else {
            let first = Entry::Ridden { journey: journey as usize };
            let rest = merged_entries(placements, journeys, placement, journey + 1);
            lemma_merged_rides(placements, journeys, placement, journey + 1);
            Seq::filter_distributes_over_add(seq![first], rest, rides);
            lemma_filter_one(first, rides);
            assert(seq![first] + rest.filter(rides) =~= expected);
        }
    } else {
        reveal(Seq::filter);
        assert(entries.filter(rides) =~= expected);
    }
}

proof fn lemma_merged_walks(
    placements: Seq<(u32, u32)>,
    journeys: Seq<Journey>,
    placement: int,
    journey: int,
)
    requires
        0 <= placement <= placements.len(),
        0 <= journey <= journeys.len() <= usize::MAX,
    ensures
        merged_entries(placements, journeys, placement, journey).filter(
            |entry: Entry| entry is Walk,
        ) == Seq::new(
            (placements.len() - placement) as nat,
            |k: int|
                Entry::Walk {
                    departure: placements[placement + k].0,
                    seconds: (placements[placement + k].1 - placements[placement + k].0) as u32,
                },
        ),
    decreases (placements.len() - placement) + (journeys.len() - journey),
{
    let entries = merged_entries(placements, journeys, placement, journey);
    let walks = |entry: Entry| entry is Walk;
    let expected = Seq::new(
        (placements.len() - placement) as nat,
        |k: int|
            Entry::Walk {
                departure: placements[placement + k].0,
                seconds: (placements[placement + k].1 - placements[placement + k].0) as u32,
            },
    );
    if journey < journeys.len() || placement < placements.len() {
        let walk_first = placement < placements.len() && (journey >= journeys.len()
            || placements[placement].0 >= journeys[journey].departure);
        if walk_first {
            let first = placed_entry(placements[placement]);
            let rest = merged_entries(placements, journeys, placement + 1, journey);
            lemma_merged_walks(placements, journeys, placement + 1, journey);
            Seq::filter_distributes_over_add(seq![first], rest, walks);
            lemma_filter_one(first, walks);
            assert(seq![first] + rest.filter(walks) =~= expected);
        } else {
            let first = Entry::Ridden { journey: journey as usize };
            let rest = merged_entries(placements, journeys, placement, journey + 1);
            lemma_merged_walks(placements, journeys, placement, journey + 1);
            Seq::filter_distributes_over_add(seq![first], rest, walks);
            lemma_filter_one(first, walks);
            assert(Seq::<Entry>::empty() + rest.filter(walks) =~= rest.filter(walks));
        }
    } else {
        reveal(Seq::filter);
        assert(entries.filter(walks) =~= expected);
    }
}

proof fn lemma_filter_one(entry: Entry, keeps: spec_fn(Entry) -> bool)
    ensures
        seq![entry].filter(keeps) == if keeps(entry) {
            seq![entry]
        } else {
            Seq::empty()
        },
{
    reveal_with_fuel(Seq::filter, 2);
    assert(seq![entry].drop_last() =~= Seq::empty());
    assert(seq![entry].last() == entry);
    assert(Seq::<Entry>::empty().push(entry) =~= seq![entry]);
}

/// A journey boards as many vehicles as it has transit legs.
pub proof fn law_rides_are_transit_legs(legs: Seq<Leg>, count: int)
    requires
        0 <= count <= legs.len(),
    ensures
        rides_upto(legs, count) == legs.subrange(0, count).filter(|leg: Leg| leg is Transit).len(),
    decreases count,
{
    reveal(Seq::filter);
    if count > 0 {
        law_rides_are_transit_legs(legs, count - 1);
        assert(legs.subrange(0, count).drop_last() =~= legs.subrange(0, count - 1));
        assert(legs.subrange(0, count).last() == legs[count - 1]);
    }
}

/// Two points at one coordinate are no walk apart; any others are as far apart
/// as the street walk says.
pub proof fn law_same_point_is_no_walk(
    origin: (u64, u64),
    destination: (u64, u64),
    walk: Option<(u32, u64)>,
)
    ensures
        !f64_is_nan(origin.0) && !f64_is_nan(origin.1) && origin == destination ==> direct_of(
            origin,
            destination,
            walk,
        ) == Some((0u32, 0u64)),
        direct_of(origin, destination, walk) == walk || f64_rank(origin.0) == f64_rank(
            destination.0,
        ) && f64_rank(origin.1) == f64_rank(destination.1),
        f64_rank(origin.0) != f64_rank(destination.0) || f64_rank(origin.1) != f64_rank(
            destination.1,
        ) ==> direct_of(origin, destination, walk) == walk,
{
}

} // verus!
