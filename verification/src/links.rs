//! Street links of points and stops, arranged for the queries that use them:
//! access offsets, egress tables and the final walk of one-to-all rows.

use crate::bytes::{f64_is_finite, is_finite};
use crate::text::{joined, joined_text, ValueError};
use vstd::prelude::*;

verus! {

/// A stop reached on foot: seconds, and meters as a double's bits.
#[derive(Debug, Clone, Copy, PartialEq, Eq, Structural)]
pub struct WalkedStop {
    pub stop: u32,
    pub seconds: u32,
    pub meters: u64,
}

pub open spec fn offset_of(walk: WalkedStop) -> (u32, u32) {
    (walk.stop, walk.seconds)
}

pub open spec fn offsets_of(walks: Seq<WalkedStop>) -> Seq<(u32, u32)> {
    walks.map_values(|walk: WalkedStop| offset_of(walk))
}

pub open spec fn entry_of(walk: WalkedStop) -> (u32, u32, u64) {
    (walk.stop, walk.seconds, walk.meters)
}

pub open spec fn entries_of(walks: Seq<WalkedStop>) -> Seq<(u32, u32, u64)> {
    walks.map_values(|walk: WalkedStop| entry_of(walk))
}

/// The `(stop, seconds)` request offsets of a walking-search result.
pub fn request_offsets(walks: &[WalkedStop]) -> (offsets: Vec<(u32, u32)>)
    ensures
        offsets@ == offsets_of(walks@),
{
    let mut offsets: Vec<(u32, u32)> = Vec::new();
    let mut index: usize = 0;
    while index < walks.len()
        invariant
            index <= walks@.len(),
            offsets@ == offsets_of(walks@).subrange(0, index as int),
        decreases walks.len() - index,
    {
        offsets.push((walks[index].stop, walks[index].seconds));
        index += 1;
        assert(offsets@ =~= offsets_of(walks@).subrange(0, index as int));
    }
    assert(offsets@ =~= offsets_of(walks@));
    offsets
}

fn table_of(walks: &[WalkedStop]) -> (entries: Vec<(u32, u32, u64)>)
    ensures
        entries@ == entries_of(walks@),
{
    let mut entries: Vec<(u32, u32, u64)> = Vec::new();
    let mut index: usize = 0;
    while index < walks.len()
        invariant
            index <= walks@.len(),
            entries@ == entries_of(walks@).subrange(0, index as int),
        decreases walks.len() - index,
    {
        entries.push((walks[index].stop, walks[index].seconds, walks[index].meters));
        index += 1;
        assert(entries@ =~= entries_of(walks@).subrange(0, index as int));
    }
    assert(entries@ =~= entries_of(walks@));
    entries
}

/// The positions among the first `count` links that are missing.
pub open spec fn missing(links: Seq<Option<Vec<WalkedStop>>>, count: int) -> Seq<u32>
    decreases count,
{
    if count <= 0 {
        Seq::empty()
    } else if links[count - 1] is None {
        missing(links, count - 1).push((count - 1) as u32)
    } else {
        missing(links, count - 1)
    }
}

/// The indices of points the linking could not snap.
pub fn unsnapped(links: &[Option<Vec<WalkedStop>>]) -> (indices: Vec<u32>)
    requires
        links@.len() <= u32::MAX,
    ensures
        indices@ == missing(links@, links@.len() as int),
{
    let mut indices: Vec<u32> = Vec::new();
    let mut index: usize = 0;
    while index < links.len()
        invariant
            index <= links@.len() <= u32::MAX,
            indices@ == missing(links@, index as int),
        decreases links.len() - index,
    {
        if links[index].is_none() {
            indices.push(index as u32);
        }
        index += 1;
    }
    indices
}

/// A point is listed as unsnapped exactly when its link is missing.
pub proof fn law_unsnapped_lists_missing_links(
    links: Seq<Option<Vec<WalkedStop>>>,
    count: int,
    index: u32,
)
    requires
        0 <= count <= links.len() <= u32::MAX,
    ensures
        missing(links, count).contains(index) <==> index < count && links[index as int] is None,
    decreases count,
{
    if count > 0 {
        law_unsnapped_lists_missing_links(links, count - 1, index);
        let before = missing(links, count - 1);
        if links[count - 1] is None {
            let after = before.push((count - 1) as u32);
            if before.contains(index) {
                let i = choose|i: int| 0 <= i < before.len() && before[i] == index;
                assert(after[i] == index);
            }
            if index == count - 1 {
                assert(after[before.len() as int] == index);
            }
            if after.contains(index) {
                let i = choose|i: int| 0 <= i < after.len() && after[i] == index;
                if i < before.len() {
                    assert(before[i] == index);
                }
            }
        }
    }
}

/// The walks of a link; none for a point that did not snap.
pub open spec fn walks_of(link: Option<Vec<WalkedStop>>) -> Seq<WalkedStop> {
    match link {
        Some(walks) => walks@,
        None => Seq::empty(),
    }
}

/// Each destination point's `(stop, seconds, meters)` egress table;
/// unsnapped points get an empty table and stay unreachable.
pub fn egress_tables(links: &[Option<Vec<WalkedStop>>]) -> (tables: Vec<Vec<(u32, u32, u64)>>)
    ensures
        tables@.len() == links@.len(),
        forall|i: int|
            0 <= i < links@.len() ==> (#[trigger] tables@[i])@ == entries_of(walks_of(links@[i])),
{
    let mut tables: Vec<Vec<(u32, u32, u64)>> = Vec::new();
    let mut index: usize = 0;
    while index < links.len()
        invariant
            index <= links@.len(),
            tables@.len() == index,
            forall|i: int|
                0 <= i < index ==> (#[trigger] tables@[i])@ == entries_of(walks_of(links@[i])),
        decreases links.len() - index,
    {
        let table = match &links[index] {
            Some(walks) => table_of(walks.as_slice()),
            None => {
                let empty: Vec<(u32, u32, u64)> = Vec::new();
                assert(empty@ =~= entries_of(Seq::empty()));
                empty
            },
        };
        tables.push(table);
        index += 1;
    }
    tables
}

/// How many of the first `count` coordinates are known.
pub open spec fn located_before(coordinates: Seq<Option<(u64, u64)>>, count: int) -> nat
    decreases count,
{
    if count <= 0 {
        0
    } else {
        located_before(coordinates, count - 1) + if coordinates[count - 1] is Some {
            1nat
        } else {
            0
        }
    }
}

/// The position of an entry's coordinate among the known ones.
pub open spec fn slot_of(coordinates: Seq<Option<(u64, u64)>>, index: int) -> Option<usize> {
    if coordinates[index] is Some {
        Some(located_before(coordinates, index) as usize)
    } else {
        None
    }
}

/// Coordinates split into the known ones, in order, and each entry's
/// position among them.
pub struct Located {
    pub points: Vec<(u64, u64)>,
    pub slots: Vec<Option<usize>>,
}

impl Located {
    /// Whether this is the split of these coordinates.
    pub open spec fn splits(&self, coordinates: Seq<Option<(u64, u64)>>) -> bool {
        &&& self.slots@.len() == coordinates.len()
        &&& self.points@.len() == located_before(coordinates, coordinates.len() as int)
        &&& forall|i: int|
            0 <= i < coordinates.len() ==> #[trigger] self.slots@[i] == slot_of(coordinates, i)
        &&& forall|i: int|
            0 <= i < coordinates.len() ==> (#[trigger] self.slots@[i] matches Some(slot) ==> slot
                < self.points@.len() && Some(self.points@[slot as int]) == coordinates[i])
    }
}

/// Splits coordinates for one linking call over the known ones.
pub fn locate(coordinates: &Vec<Option<(u64, u64)>>) -> (located: Located)
    ensures
        located.splits(coordinates@),
{
    let mut points: Vec<(u64, u64)> = Vec::new();
    let mut slots: Vec<Option<usize>> = Vec::new();
    let mut index: usize = 0;
    while index < coordinates.len()
        invariant
            index <= coordinates@.len(),
            slots@.len() == index,
            points@.len() == located_before(coordinates@, index as int),
            points@.len() <= index,
            forall|i: int|
                0 <= i < index ==> #[trigger] slots@[i] == slot_of(coordinates@, i),
            forall|i: int|
                0 <= i < index ==> (#[trigger] slots@[i] matches Some(slot) ==> slot
                    < points@.len() && Some(points@[slot as int]) == coordinates@[i]),
        decreases coordinates.len() - index,
    {
        match coordinates[index] {
            Some(point) => {
                slots.push(Some(points.len()));
                points.push(point);
            },
            None => {
                slots.push(None);
            },
        }
        index += 1;
    }
    Located { points, slots }
}

/// The final walks to a stop: none for a stop without a coordinate (it
/// cannot be located, so it keeps its bare arrival); a located stop has the
/// list of its link, empty where the link is missing.
pub open spec fn final_walks(slot: Option<usize>, links: Seq<Option<Vec<WalkedStop>>>) -> Option<
    Seq<(u32, u32)>,
> {
    match slot {
        None => None,
        Some(slot) => Some(offsets_of(walks_of(links[slot as int]))),
    }
}

pub open spec fn option_view<T>(entry: Option<Vec<T>>) -> Option<Seq<T>> {
    match entry {
        Some(values) => Some(values@),
        None => None,
    }
}

/// The per-destination final-walk egress of the one-to-all time queries,
/// from the links of the located stops.
pub fn final_egress(slots: &Vec<Option<usize>>, links: &Vec<Option<Vec<WalkedStop>>>) -> (egress:
    Vec<Option<Vec<(u32, u32)>>>)
    requires
        forall|i: int|
            0 <= i < slots@.len() ==> (#[trigger] slots@[i] matches Some(slot) ==> slot
                < links@.len()),
    ensures
        egress@.len() == slots@.len(),
        forall|i: int|
            0 <= i < slots@.len() ==> option_view(#[trigger] egress@[i]) == final_walks(
                slots@[i],
                links@,
            ),
{
    let mut egress: Vec<Option<Vec<(u32, u32)>>> = Vec::new();
    let mut index: usize = 0;
    while index < slots.len()
        invariant
            index <= slots@.len(),
            egress@.len() == index,
            forall|i: int|
                0 <= i < slots@.len() ==> (#[trigger] slots@[i] matches Some(slot) ==> slot
                    < links@.len()),
            forall|i: int|
                0 <= i < index ==> option_view(#[trigger] egress@[i]) == final_walks(
                    slots@[i],
                    links@,
                ),
        decreases slots.len() - index,
    {
        assert(slots@[index as int] matches Some(slot) ==> slot < links@.len());
        let entry = match slots[index] {
            None => None,
            Some(slot) => match &links[slot] {
                Some(walks) => Some(request_offsets(walks.as_slice())),
                None => {
                    let empty: Vec<(u32, u32)> = Vec::new();
                    assert(empty@ =~= offsets_of(Seq::empty()));
                    Some(empty)
                },
            },
        };
        egress.push(entry);
        index += 1;
    }
    egress
}

/// The final walks to a stop with their meters: a located stop has the table
/// of its link, empty where the link is missing; a stop without a coordinate
/// cannot be located and keeps its arrival through a zero walk at itself.
pub open spec fn door_walks(
    stop: u32,
    slot: Option<usize>,
    links: Seq<Option<Vec<WalkedStop>>>,
) -> Seq<(u32, u32, u64)> {
    match slot {
        None => seq![(stop, 0u32, 0u64)],
        Some(slot) => entries_of(walks_of(links[slot as int])),
    }
}

/// The per-destination egress of a door-to-door stop cost matrix, from the
/// links of the located stops.
pub fn door_egress(
    destinations: &Vec<u32>,
    slots: &Vec<Option<usize>>,
    links: &Vec<Option<Vec<WalkedStop>>>,
) -> (egress: Vec<Vec<(u32, u32, u64)>>)
    requires
        slots@.len() == destinations@.len(),
        forall|i: int|
            0 <= i < slots@.len() ==> (#[trigger] slots@[i] matches Some(slot) ==> slot
                < links@.len()),
    ensures
        egress@.len() == destinations@.len(),
        forall|i: int|
            0 <= i < destinations@.len() ==> (#[trigger] egress@[i])@ == door_walks(
                destinations@[i],
                slots@[i],
                links@,
            ),
{
    let mut egress: Vec<Vec<(u32, u32, u64)>> = Vec::new();
    let mut index: usize = 0;
    while index < destinations.len()
        invariant
            index <= destinations@.len() == slots@.len(),
            egress@.len() == index,
            forall|i: int|
                0 <= i < slots@.len() ==> (#[trigger] slots@[i] matches Some(slot) ==> slot
                    < links@.len()),
            forall|i: int|
                0 <= i < index ==> (#[trigger] egress@[i])@ == door_walks(
                    destinations@[i],
                    slots@[i],
                    links@,
                ),
        decreases destinations.len() - index,
    {
        assert(slots@[index as int] matches Some(slot) ==> slot < links@.len());
        let entry = match slots[index] {
            None => {
                let mut seed: Vec<(u32, u32, u64)> = Vec::new();
                seed.push((destinations[index], 0, 0));
                assert(seed@ =~= seq![(destinations@[index as int], 0u32, 0u64)]);
                seed
            },
            Some(slot) => match &links[slot] {
                Some(walks) => table_of(walks.as_slice()),
                None => {
                    let empty: Vec<(u32, u32, u64)> = Vec::new();
                    assert(empty@ =~= entries_of(Seq::empty()));
                    empty
                },
            },
        };
        egress.push(entry);
        index += 1;
    }
    egress
}

/// An arrival after a walk; none past the clock's range, whose last value
/// means unreachable.
pub open spec fn after_walk(arrival: Option<u32>, seconds: u32) -> Option<u32> {
    match arrival {
        Some(at) => if at + seconds < u32::MAX {
            Some((at + seconds) as u32)
        } else {
            None
        },
        None => None,
    }
}

pub open spec fn earlier(left: Option<u32>, right: Option<u32>) -> Option<u32> {
    match (left, right) {
        (None, _) => right,
        (_, None) => left,
        (Some(a), Some(b)) => Some(
            if b < a {
                b
            } else {
                a
            },
        ),
    }
}

/// The earliest arrival over the first `count` final walks.
pub open spec fn earliest(arrivals: Seq<Option<u32>>, walks: Seq<(u32, u32)>, count: int) -> Option<
    u32,
>
    decreases count,
{
    if count <= 0 {
        None
    } else {
        earlier(
            earliest(arrivals, walks, count - 1),
            after_walk(arrivals[walks[count - 1].0 as int], walks[count - 1].1),
        )
    }
}

/// The final walks to a stop, where it is located.
pub open spec fn walks_to(egress: Seq<Option<Vec<(u32, u32)>>>, target: int) -> Option<
    Seq<(u32, u32)>,
> {
    if target < egress.len() {
        option_view(egress[target])
    } else {
        None
    }
}

/// A stop's arrival once a final walk is folded in.
pub open spec fn folded(
    arrivals: Seq<Option<u32>>,
    egress: Option<Seq<(u32, u32)>>,
    target: int,
) -> Option<u32> {
    match egress {
        None => arrivals[target],
        Some(walks) => earliest(arrivals, walks, walks.len() as int),
    }
}

pub(crate) fn exec_after_walk(arrival: Option<u32>, seconds: u32) -> (at: Option<u32>)
    ensures
        at == after_walk(arrival, seconds),
{
    match arrival {
        Some(at) => match at.checked_add(seconds) {
            Some(sum) => if sum != u32::MAX {
                Some(sum)
            } else {
                None
            },
            None => None,
        },
        None => None,
    }
}

pub(crate) fn exec_earlier(left: Option<u32>, right: Option<u32>) -> (first: Option<u32>)
    ensures
        first == earlier(left, right),
{
    match (left, right) {
        (None, _) => right,
        (_, None) => left,
        (Some(a), Some(b)) => Some(
            if b < a {
                b
            } else {
                a
            },
        ),
    }
}

/// Folds one bounded final walk into a one-to-all arrival row: each located
/// stop's arrival becomes the earliest over its final walks, all taken from
/// the row as it came, so a final walk never chains. Stops past the end of
/// `egress` keep their arrivals, as those without a location do.
pub fn fold_final_transfers(arrivals: &mut Vec<Option<u32>>, egress: &Vec<Option<Vec<(u32, u32)>>>)
    requires
        egress@.len() <= old(arrivals)@.len(),
        forall|t: int, w: int|
            0 <= t < egress@.len() && egress@[t] is Some && 0 <= w < egress@[t]->0@.len()
                ==> (#[trigger] egress@[t]->0@[w]).0 < old(arrivals)@.len(),
    ensures
        final(arrivals)@ == Seq::new(
            old(arrivals)@.len(),
            |t: int| folded(old(arrivals)@, walks_to(egress@, t), t),
        ),
{
    let ghost start = arrivals@;
    let mut reached: Vec<Option<u32>> = Vec::new();
    let mut target: usize = 0;
    while target < arrivals.len()
        invariant
            target <= arrivals@.len(),
            arrivals@ == start,
            egress@.len() <= start.len(),
            forall|t: int, w: int|
                0 <= t < egress@.len() && egress@[t] is Some && 0 <= w < egress@[t]->0@.len()
                    ==> (#[trigger] egress@[t]->0@[w]).0 < start.len(),
            reached@ == Seq::new(
                target as nat,
                |t: int| folded(start, walks_to(egress@, t), t),
            ),
        decreases arrivals.len() - target,
    {
        let located: Option<&Vec<(u32, u32)>> = if target < egress.len() {
            egress[target].as_ref()
        } else {
            None
        };
        let at: Option<u32> = match located {
            None => arrivals[target],
            Some(walks) => {
                let mut best: Option<u32> = None;
                let mut index: usize = 0;
                while index < walks.len()
                    invariant
                        index <= walks@.len(),
                        target < start.len(),
                        arrivals@ == start,
                        target < egress@.len() <= start.len(),
                        egress@[target as int] == Some(*walks),
                        forall|t: int, w: int|
                            0 <= t < egress@.len() && egress@[t] is Some && 0 <= w
                                < egress@[t]->0@.len() ==> (#[trigger] egress@[t]->0@[w]).0
                                < start.len(),
                        best == earliest(start, walks@, index as int),
                    decreases walks.len() - index,
                {
                    let (source, seconds): (u32, u32) = walks[index];
                    assert(egress@[target as int]->0@[index as int].0 < start.len());
                    best = exec_earlier(best, exec_after_walk(arrivals[source as usize], seconds));
                    index += 1;
                }
                best
            },
        };
        reached.push(at);
        target += 1;
        assert(reached@ =~= Seq::new(
            target as nat,
            |t: int| folded(start, walks_to(egress@, t), t),
        ));
    }
    assert(reached@ =~= Seq::new(
        start.len(),
        |t: int| folded(start, walks_to(egress@, t), t),
    ));
    *arrivals = reached;
}

/// A folded arrival is the earliest there is: one of the walks attains it,
/// and none beats it.
pub proof fn law_earliest_is_least(arrivals: Seq<Option<u32>>, walks: Seq<(u32, u32)>, count: int)
    requires
        0 <= count <= walks.len(),
    ensures
        match earliest(arrivals, walks, count) {
            None => forall|i: int|
                0 <= i < count ==> after_walk(
                    arrivals[(#[trigger] walks[i]).0 as int],
                    walks[i].1,
                ) is None,
            Some(best) => {
                &&& exists|i: int|
                    0 <= i < count && after_walk(
                        arrivals[(#[trigger] walks[i]).0 as int],
                        walks[i].1,
                    ) == Some(best)
                &&& forall|i: int|
                    0 <= i < count ==> (after_walk(
                        arrivals[(#[trigger] walks[i]).0 as int],
                        walks[i].1,
                    ) matches Some(at) ==> best <= at)
            },
        },
    decreases count,
{
    if count > 0 {
        law_earliest_is_least(arrivals, walks, count - 1);
        let last = after_walk(arrivals[walks[count - 1].0 as int], walks[count - 1].1);
        if let Some(best) = earliest(arrivals, walks, count) {
            if last == Some(best) {
                assert(after_walk(arrivals[walks[count - 1].0 as int], walks[count - 1].1) == Some(
                    best,
                ));
            } else {
                assert(earliest(arrivals, walks, count - 1) == Some(best));
                let i = choose|i: int|
                    0 <= i < count - 1 && after_walk(
                        arrivals[(#[trigger] walks[i]).0 as int],
                        walks[i].1,
                    ) == Some(best);
                assert(after_walk(arrivals[walks[i].0 as int], walks[i].1) == Some(best));
            }
        }
    }
}

/// The entries that a destination's link adds for a source stop.
pub open spec fn source_entries(walks: Seq<WalkedStop>, source: int, slot: u32, count: int) -> Seq<
    (u32, u32, u64),
>
    decreases count,
{
    if count <= 0 {
        Seq::empty()
    } else {
        let before = source_entries(walks, source, slot, count - 1);
        if walks[count - 1].stop == source {
            before.push((slot, walks[count - 1].seconds, walks[count - 1].meters))
        } else {
            before
        }
    }
}

/// The street egress off a source stop over the first `count` destinations:
/// their slots with walk seconds and meters. A destination whose link is
/// missing has no entry.
pub open spec fn street_entries(
    slots: Seq<Option<usize>>,
    links: Seq<Option<Vec<WalkedStop>>>,
    source: int,
    count: int,
) -> Seq<(u32, u32, u64)>
    decreases count,
{
    if count <= 0 {
        Seq::empty()
    } else {
        let before = street_entries(slots, links, source, count - 1);
        match slots[count - 1] {
            None => before,
            Some(slot) => before + source_entries(
                walks_of(links[slot as int]),
                source,
                (count - 1) as u32,
                walks_of(links[slot as int]).len() as int,
            ),
        }
    }
}

/// The bare entries of the first `count` destinations at a stop: one without
/// a coordinate is reached only by alighting there.
pub open spec fn bare_entries(
    slots: Seq<Option<usize>>,
    destinations: Seq<u32>,
    source: int,
    count: int,
) -> Seq<(u32, u32, u64)>
    decreases count,
{
    if count <= 0 {
        Seq::empty()
    } else {
        let before = bare_entries(slots, destinations, source, count - 1);
        if slots[count - 1] is None && destinations[count - 1] == source {
            before.push(((count - 1) as u32, 0, 0))
        } else {
            before
        }
    }
}

pub open spec fn walks_in_range(links: Seq<Option<Vec<WalkedStop>>>, stops: nat) -> bool {
    forall|i: int, w: int|
        0 <= i < links.len() && links[i] is Some && 0 <= w < links[i]->0@.len() ==> (
        #[trigger] links[i]->0@[w]).stop < stops
}

/// The street egress of a cost matrix, keyed by source stop: for every
/// matrix destination reachable by a final walk off that stop its slot, walk
/// seconds and walk meters.
pub fn matrix_street_egress(
    stop_count: usize,
    destinations: &Vec<u32>,
    slots: &Vec<Option<usize>>,
    links: &Vec<Option<Vec<WalkedStop>>>,
) -> (map: Vec<Vec<(u32, u32, u64)>>)
    requires
        slots@.len() == destinations@.len() <= u32::MAX,
        forall|i: int| 0 <= i < destinations@.len() ==> #[trigger] destinations@[i] < stop_count,
        forall|i: int|
            0 <= i < slots@.len() ==> (#[trigger] slots@[i] matches Some(slot) ==> slot
                < links@.len()),
        walks_in_range(links@, stop_count as nat),
    ensures
        map@.len() == stop_count,
        forall|s: int|
            0 <= s < stop_count ==> (#[trigger] map@[s])@ == street_entries(
                slots@,
                links@,
                s,
                slots@.len() as int,
            ) + bare_entries(slots@, destinations@, s, slots@.len() as int),
{
    let mut map: Vec<Vec<(u32, u32, u64)>> = Vec::new();
    let mut filled: usize = 0;
    while filled < stop_count
        invariant
            filled <= stop_count,
            map@.len() == filled,
            forall|s: int|
                0 <= s < filled ==> (#[trigger] map@[s])@ == street_entries(slots@, links@, s, 0),
        decreases stop_count - filled,
    {
        map.push(Vec::new());
        filled += 1;
    }
    let mut index: usize = 0;
    while index < slots.len()
        invariant
            index <= slots@.len() <= u32::MAX,
            map@.len() == stop_count,
            forall|i: int|
                0 <= i < slots@.len() ==> (#[trigger] slots@[i] matches Some(slot) ==> slot
                    < links@.len()),
            walks_in_range(links@, stop_count as nat),
            forall|s: int|
                0 <= s < stop_count ==> (#[trigger] map@[s])@ == street_entries(
                    slots@,
                    links@,
                    s,
                    index as int,
                ),
        decreases slots.len() - index,
    {
        assert(slots@[index as int] matches Some(slot) ==> slot < links@.len());
        let ghost before = map@;
        if let Some(slot) = slots[index] {
            if let Some(walks) = &links[slot] {
                let mut at: usize = 0;
                assert forall|s: int| 0 <= s < stop_count implies (#[trigger] map@[s])@
                    == before[s]@ + source_entries(walks@, s, index as u32, 0) by {
                    assert(before[s]@ + source_entries(walks@, s, index as u32, 0) =~= before[s]@);
                }
                while at < walks.len()
                    invariant
                        at <= walks@.len(),
                        index <= u32::MAX,
                        slot < links@.len(),
                        links@[slot as int] == Some(*walks),
                        walks_in_range(links@, stop_count as nat),
                        map@.len() == stop_count,
                        before.len() == stop_count,
                        forall|s: int|
                            0 <= s < stop_count ==> (#[trigger] map@[s])@ == before[s]@
                                + source_entries(walks@, s, index as u32, at as int),
                    decreases walks.len() - at,
                {
                    let walk: WalkedStop = walks[at];
                    assert(links@[slot as int]->0@[at as int].stop < stop_count);
                    let ghost held = map@;
                    map[walk.stop as usize].push((index as u32, walk.seconds, walk.meters));
                    assert forall|s: int| 0 <= s < stop_count implies (#[trigger] map@[s])@
                        == before[s]@ + source_entries(walks@, s, index as u32, at + 1) by {
                        assert(held[s]@ == before[s]@ + source_entries(
                            walks@,
                            s,
                            index as u32,
                            at as int,
                        ));
                        assert(map@[s]@ =~= before[s]@ + source_entries(
                            walks@,
                            s,
                            index as u32,
                            at + 1,
                        ));
                    }
                    at += 1;
                }
            } else {
                assert forall|s: int| 0 <= s < stop_count implies (#[trigger] map@[s])@
                    == street_entries(slots@, links@, s, index + 1) by {
                    assert(before[s]@ + source_entries(Seq::empty(), s, index as u32, 0)
                        =~= before[s]@);
                }
            }
        }
        index += 1;
    }
    let ghost street = map@;
    assert forall|s: int| 0 <= s < stop_count implies (#[trigger] map@[s])@ == street[s]@
        + bare_entries(slots@, destinations@, s, 0) by {
        assert(street[s]@ + bare_entries(slots@, destinations@, s, 0) =~= street[s]@);
    }
    let mut bare: usize = 0;
    while bare < slots.len()
        invariant
            bare <= slots@.len() == destinations@.len(),
            slots@.len() <= u32::MAX,
            forall|i: int|
                0 <= i < destinations@.len() ==> #[trigger] destinations@[i] < stop_count,
            map@.len() == stop_count,
            forall|s: int|
                0 <= s < stop_count ==> (#[trigger] map@[s])@ == street[s]@ + bare_entries(
                    slots@,
                    destinations@,
                    s,
                    bare as int,
                ),
        decreases slots.len() - bare,
    {
        let ghost held = map@;
        let destination: u32 = destinations[bare];
        assert(destinations@[bare as int] < stop_count);
        if slots[bare].is_none() {
            map[destination as usize].push((bare as u32, 0, 0));
        }
        assert forall|s: int| 0 <= s < stop_count implies (#[trigger] map@[s])@ == street[s]@
            + bare_entries(slots@, destinations@, s, bare + 1) by {
            assert(held[s]@ == street[s]@ + bare_entries(slots@, destinations@, s, bare as int));
            assert(map@[s]@ =~= street[s]@ + bare_entries(slots@, destinations@, s, bare + 1));
        }
        bare += 1;
    }
    map
}

/// Whether an origin takes the door-to-door path: its coordinate is known
/// and snaps, even where no stop is within the walking cap.
pub open spec fn is_located(slot: Option<usize>, links: Seq<Option<Vec<WalkedStop>>>) -> bool {
    slot matches Some(slot) && links[slot as int] is Some
}

/// The access of one origin: its link's stops, or boarding at the origin
/// itself where it is not located.
pub open spec fn location_access(
    origin: u32,
    slot: Option<usize>,
    links: Seq<Option<Vec<WalkedStop>>>,
) -> Seq<(u32, u32, u64)> {
    if is_located(slot, links) {
        entries_of(walks_of(links[slot->0 as int]))
    } else {
        seq![(origin, 0u32, 0u64)]
    }
}

/// The location-based access of a cost matrix, one entry per origin, with
/// the flag that tells door-to-door origins from those that fall back to
/// boarding at their own stop.
pub fn matrix_location_access(
    origins: &Vec<u32>,
    slots: &Vec<Option<usize>>,
    links: &Vec<Option<Vec<WalkedStop>>>,
) -> (access: (Vec<Vec<(u32, u32, u64)>>, Vec<bool>))
    requires
        slots@.len() == origins@.len(),
        forall|i: int|
            0 <= i < slots@.len() ==> (#[trigger] slots@[i] matches Some(slot) ==> slot
                < links@.len()),
    ensures
        access.0@.len() == origins@.len(),
        access.1@.len() == origins@.len(),
        forall|i: int|
            0 <= i < origins@.len() ==> (#[trigger] access.0@[i])@ == location_access(
                origins@[i],
                slots@[i],
                links@,
            ),
        forall|i: int|
            0 <= i < origins@.len() ==> #[trigger] access.1@[i] == is_located(slots@[i], links@),
{
    let mut tables: Vec<Vec<(u32, u32, u64)>> = Vec::new();
    let mut located: Vec<bool> = Vec::new();
    let mut index: usize = 0;
    while index < origins.len()
        invariant
            index <= origins@.len() == slots@.len(),
            tables@.len() == index,
            located@.len() == index,
            forall|i: int|
                0 <= i < slots@.len() ==> (#[trigger] slots@[i] matches Some(slot) ==> slot
                    < links@.len()),
            forall|i: int|
                0 <= i < index ==> (#[trigger] tables@[i])@ == location_access(
                    origins@[i],
                    slots@[i],
                    links@,
                ),
            forall|i: int| 0 <= i < index ==> #[trigger] located@[i] == is_located(slots@[i], links@),
        decreases origins.len() - index,
    {
        assert(slots@[index as int] matches Some(slot) ==> slot < links@.len());
        let reached: Option<Vec<(u32, u32, u64)>> = match slots[index] {
            Some(slot) => match &links[slot] {
                Some(walks) => Some(table_of(walks.as_slice())),
                None => None,
            },
            None => None,
        };
        match reached {
            Some(table) => {
                tables.push(table);
                located.push(true);
            },
            None => {
                let mut own: Vec<(u32, u32, u64)> = Vec::new();
                own.push((origins[index], 0, 0));
                assert(own@ =~= seq![(origins@[index as int], 0u32, 0u64)]);
                tables.push(own);
                located.push(false);
            },
        }
        index += 1;
    }
    (tables, located)
}

/// The direct walks of one origin over the first `count` destinations.
pub open spec fn direct_walks(
    row: Option<usize>,
    columns: Seq<Option<usize>>,
    walks: Seq<Vec<Option<(u32, u64)>>>,
    count: int,
) -> Seq<(u32, u32, u64)>
    decreases count,
{
    if count <= 0 {
        Seq::empty()
    } else {
        let before = direct_walks(row, columns, walks, count - 1);
        match (row, columns[count - 1]) {
            (Some(row), Some(column)) => match walks[row as int]@[column as int] {
                Some((seconds, meters)) => before.push(((count - 1) as u32, seconds, meters)),
                None => before,
            },
            _ => before,
        }
    }
}

/// The explicit coordinate-to-coordinate walks of a cost matrix, per origin:
/// destination slot, walk seconds and walk meters. A stop without a
/// coordinate contributes and receives no walk.
pub fn matrix_direct_walks(
    rows: &Vec<Option<usize>>,
    columns: &Vec<Option<usize>>,
    walks: &Vec<Vec<Option<(u32, u64)>>>,
) -> (direct: Vec<Vec<(u32, u32, u64)>>)
    requires
        columns@.len() <= u32::MAX,
        forall|i: int|
            0 <= i < rows@.len() ==> (#[trigger] rows@[i] matches Some(row) ==> row < walks@.len()),
        forall|i: int, r: int|
            0 <= i < columns@.len() && 0 <= r < walks@.len() ==> (#[trigger] columns@[i] matches Some(
                column,
            ) ==> column < (#[trigger] walks@[r])@.len()),
    ensures
        direct@.len() == rows@.len(),
        forall|i: int|
            0 <= i < rows@.len() ==> (#[trigger] direct@[i])@ == direct_walks(
                rows@[i],
                columns@,
                walks@,
                columns@.len() as int,
            ),
{
    let mut direct: Vec<Vec<(u32, u32, u64)>> = Vec::new();
    let mut index: usize = 0;
    while index < rows.len()
        invariant
            index <= rows@.len(),
            columns@.len() <= u32::MAX,
            forall|i: int|
                0 <= i < rows@.len() ==> (#[trigger] rows@[i] matches Some(row) ==> row
                    < walks@.len()),
            forall|i: int, r: int|
                0 <= i < columns@.len() && 0 <= r < walks@.len() ==> (
                #[trigger] columns@[i] matches Some(column) ==> column < (
                #[trigger] walks@[r])@.len()),
            direct@.len() == index,
            forall|i: int|
                0 <= i < index ==> (#[trigger] direct@[i])@ == direct_walks(
                    rows@[i],
                    columns@,
                    walks@,
                    columns@.len() as int,
                ),
        decreases rows.len() - index,
    {
        let ghost at = rows@[index as int];
        assert(at matches Some(row) ==> row < walks@.len());
        let mut entries: Vec<(u32, u32, u64)> = Vec::new();
        let mut column: usize = 0;
        while column < columns.len()
            invariant
                column <= columns@.len() <= u32::MAX,
                index < rows@.len(),
                at == rows@[index as int],
                at matches Some(row) ==> row < walks@.len(),
                forall|i: int, r: int|
                    0 <= i < columns@.len() && 0 <= r < walks@.len() ==> (
                    #[trigger] columns@[i] matches Some(column) ==> column < (
                    #[trigger] walks@[r])@.len()),
                entries@ == direct_walks(at, columns@, walks@, column as int),
            decreases columns.len() - column,
        {
            if let Some(row) = rows[index] {
                if let Some(to) = columns[column] {
                    assert(columns@[column as int] matches Some(c) ==> c < walks@[row as int]@.len());
                    if let Some((seconds, meters)) = walks[row][to] {
                        entries.push((column as u32, seconds, meters));
                    }
                }
            }
            column += 1;
        }
        direct.push(entries);
        index += 1;
    }
    direct
}

pub open spec fn unfinite_coordinate_text(side: Seq<char>) -> Seq<char> {
    joined_text(seq![side, "lat and lon must be finite"@])
}

/// Rejects a coordinate that is not finite; `side` names the endpoint (for
/// instance `"origin "`).
pub fn check_coordinate(side: &str, lat: u64, lon: u64) -> (checked: Result<(), ValueError>)
    ensures
        checked is Ok == (f64_is_finite(lat) && f64_is_finite(lon)),
        checked matches Err(error) ==> error.message@ == unfinite_coordinate_text(side@),
{
    if is_finite(lat) && is_finite(lon) {
        Ok(())
    } else {
        let pieces: [&str; 2] = [side, "lat and lon must be finite"];
        let text = joined(&pieces);
        assert(pieces@.map_values(|piece: &str| piece@) =~= seq![
            side@,
            "lat and lon must be finite"@,
        ]);
        Err(ValueError::new(text))
    }
}

/// A coordinate of a query (doubles' bits), the stops walkable from it where
/// it lies on the walking network, and its numbers as they print.
pub struct QueryPoint {
    pub lat: u64,
    pub lon: u64,
    pub links: Option<Vec<WalkedStop>>,
    pub lat_text: String,
    pub lon_text: String,
}

pub open spec fn off_network_text(side: Seq<char>, point: QueryPoint, max_snap: Seq<char>) -> Seq<
    char,
> {
    joined_text(
        seq![
            side,
            "("@,
            point.lat_text@,
            ", "@,
            point.lon_text@,
            ") is farther than "@,
            max_snap,
            " m from the walking network"@,
        ],
    )
}

/// What a query's coordinate is refused for.
pub open spec fn coordinate_fault(side: Seq<char>, point: QueryPoint, max_snap: Seq<char>) -> Option<
    Seq<char>,
> {
    if !(f64_is_finite(point.lat) && f64_is_finite(point.lon)) {
        Some(unfinite_coordinate_text(side))
    } else if point.links is None {
        Some(off_network_text(side, point, max_snap))
    } else {
        None
    }
}

/// The stops walkable from a coordinate; refused where it is not finite or
/// lies off the walking network. `max_snap` is the snap distance as it
/// prints.
pub fn coordinate_links<'a>(side: &str, point: &'a QueryPoint, max_snap: &str) -> (links: Result<
    &'a Vec<WalkedStop>,
    ValueError,
>)
    ensures
        match coordinate_fault(side@, *point, max_snap@) {
            Some(text) => links matches Err(error) && error.message@ == text,
            None => links matches Ok(links) && point.links == Some(*links),
        },
{
    match check_coordinate(side, point.lat, point.lon) {
        Ok(_) => {},
        Err(error) => return Err(error),
    }
    match &point.links {
        Some(links) => Ok(links),
        None => {
            let pieces: [&str; 8] = [
                side,
                "(",
                point.lat_text.as_str(),
                ", ",
                point.lon_text.as_str(),
                ") is farther than ",
                max_snap,
                " m from the walking network",
            ];
            let text = joined(&pieces);
            assert(pieces@.map_values(|piece: &str| piece@) =~= seq![
                side@,
                "("@,
                point.lat_text@,
                ", "@,
                point.lon_text@,
                ") is farther than "@,
                max_snap@,
                " m from the walking network"@,
            ]);
            Err(ValueError::new(text))
        },
    }
}

/// Offsets and entries list a link's walks one by one: each has its walk's
/// stop and seconds, and an entry its meters too. A missing link has no walks.
pub proof fn law_walks_keep_their_fields(link: Option<Vec<WalkedStop>>, i: int)
    ensures
        link is None ==> walks_of(link).len() == 0,
        offsets_of(walks_of(link)).len() == entries_of(walks_of(link)).len(),
        link matches Some(walks) ==> {
            &&& walks_of(link).len() == walks@.len()
            &&& entries_of(walks_of(link)).len() == walks@.len()
            &&& 0 <= i < walks@.len() ==> {
                &&& offsets_of(walks_of(link))[i].0 == walks@[i].stop
                &&& offsets_of(walks_of(link))[i].1 == walks@[i].seconds
                &&& entries_of(walks_of(link))[i].0 == walks@[i].stop
                &&& entries_of(walks_of(link))[i].1 == walks@[i].seconds
                &&& entries_of(walks_of(link))[i].2 == walks@[i].meters
            }
        },
{
}

/// The unsnapped points are listed in order, none twice.
pub proof fn law_unsnapped_points_are_in_order(
    links: Seq<Option<Vec<WalkedStop>>>,
    count: int,
    j: int,
    k: int,
)
    requires
        0 <= count <= links.len() <= u32::MAX,
        0 <= j < k < missing(links, count).len(),
    ensures
        missing(links, count)[j] < missing(links, count)[k] < count,
    decreases count,
{
    let before = missing(links, count - 1);
    if links[count - 1] is None && k == before.len() {
        law_unsnapped_lists_missing_links(links, count - 1, before[j]);
    } else {
        law_unsnapped_points_are_in_order(links, count - 1, j, k);
    }
}

/// The known coordinates are numbered from zero in their order, without gaps:
/// the first one has slot zero, and of two known ones with none between them
/// the second has the next slot. An unknown coordinate has no slot.
pub proof fn law_slots_number_the_known_coordinates(
    coordinates: Seq<Option<(u64, u64)>>,
    i: int,
    j: int,
)
    requires
        0 <= i <= j < coordinates.len() <= usize::MAX,
        forall|k: int| i < k < j ==> #[trigger] coordinates[k] is None,
    ensures
        coordinates[j] is None <==> slot_of(coordinates, j) is None,
        i < j && coordinates[i] is Some && coordinates[j] is Some ==> slot_of(coordinates, j)->0
            == slot_of(coordinates, i)->0 + 1,
        i == 0 && coordinates[0] is None && coordinates[j] is Some ==> slot_of(coordinates, j)
            == Some(0usize),
        coordinates[0] is Some ==> slot_of(coordinates, 0) == Some(0usize),
{
    lemma_located_between(coordinates, i + 1, j);
    lemma_located_bound(coordinates, j);
    reveal_with_fuel(located_before, 2);
}

proof fn lemma_located_between(coordinates: Seq<Option<(u64, u64)>>, from: int, to: int)
    requires
        0 <= from,
        forall|k: int| from <= k < to ==> #[trigger] coordinates[k] is None,
    ensures
        from <= to ==> located_before(coordinates, to) == located_before(coordinates, from),
    decreases to - from,
{
    if from < to {
        assert(coordinates[to - 1] is None);
        lemma_located_between(coordinates, from, to - 1);
    }
}

proof fn lemma_located_bound(coordinates: Seq<Option<(u64, u64)>>, count: int)
    requires
        0 <= count,
    ensures
        located_before(coordinates, count) <= count,
    decreases count,
{
    if count > 0 {
        lemma_located_bound(coordinates, count - 1);
    }
}

/// As many coordinates are located as are known: none where all are unknown,
/// and one more with each known one.
pub proof fn law_locating_counts_the_known_coordinates(
    coordinates: Seq<Option<(u64, u64)>>,
    next: Option<(u64, u64)>,
)
    ensures
        located_before(coordinates, 0) == 0,
        ({
            let more = coordinates.push(next);
            &&& next is Some ==> located_before(more, more.len() as int) == located_before(
                coordinates,
                coordinates.len() as int,
            ) + 1
            &&& next is None ==> located_before(more, more.len() as int) == located_before(
                coordinates,
                coordinates.len() as int,
            )
        }),
{
    lemma_located_prefix(coordinates, coordinates.push(next), coordinates.len() as int);
}

proof fn lemma_located_prefix(
    left: Seq<Option<(u64, u64)>>,
    right: Seq<Option<(u64, u64)>>,
    count: int,
)
    requires
        forall|k: int| 0 <= k < count ==> #[trigger] left[k] == right[k],
    ensures
        located_before(left, count) == located_before(right, count),
    decreases count,
{
    if count > 0 {
        assert(left[count - 1] == right[count - 1]);
        lemma_located_prefix(left, right, count - 1);
    }
}

/// A stop without a coordinate has no final walks to fold, and a door that is
/// the stop itself at no cost; a located one has its own link's walks, or none
/// at all where that link is missing.
pub proof fn law_final_walks_are_the_links(
    stop: u32,
    slot: Option<usize>,
    links: Seq<Option<Vec<WalkedStop>>>,
    i: int,
)
    requires
        slot matches Some(at) ==> at < links.len(),
    ensures
        slot is None ==> final_walks(slot, links) is None && door_walks(stop, slot, links).len() == 1
            && door_walks(stop, slot, links)[0].0 == stop && door_walks(stop, slot, links)[0].1 == 0
            && door_walks(stop, slot, links)[0].2 == 0,
        slot matches Some(at) ==> {
            &&& final_walks(slot, links) is Some
            &&& links[at as int] is None ==> final_walks(slot, links)->0.len() == 0 && door_walks(
                stop,
                slot,
                links,
            ).len() == 0
            &&& links[at as int] matches Some(walks) ==> {
                &&& final_walks(slot, links)->0.len() == walks@.len()
                &&& door_walks(stop, slot, links).len() == walks@.len()
                &&& 0 <= i < walks@.len() ==> {
                    &&& final_walks(slot, links)->0[i].0 == walks@[i].stop
                    &&& final_walks(slot, links)->0[i].1 == walks@[i].seconds
                    &&& door_walks(stop, slot, links)[i].0 == walks@[i].stop
                    &&& door_walks(stop, slot, links)[i].1 == walks@[i].seconds
                    &&& door_walks(stop, slot, links)[i].2 == walks@[i].meters
                }
            }
        },
{
}

/// Whether a walk off an arrival ends at a moment.
pub open spec fn ends_at(arrival: Option<u32>, seconds: u32, moment: u32) -> bool {
    arrival matches Some(at) && at + seconds == moment
}

/// The earliest arrival over some walks is one of their arrivals plus its
/// walk, and comes no later than any other that ends within the clock's
/// range; there is none only where no walk does.
pub proof fn law_earliest_adds_the_walk(
    arrivals: Seq<Option<u32>>,
    walks: Seq<(u32, u32)>,
    count: int,
)
    requires
        0 <= count <= walks.len(),
    ensures
        forall|i: int|
            0 <= i < count && arrivals[(#[trigger] walks[i]).0 as int] is Some
                && arrivals[walks[i].0 as int]->0 + walks[i].1 < u32::MAX ==> earliest(
                arrivals,
                walks,
                count,
            ) is Some && earliest(arrivals, walks, count)->0 <= arrivals[walks[i].0 as int]->0
                + walks[i].1,
        earliest(arrivals, walks, count) matches Some(best) ==> best < u32::MAX && exists|i: int|
            0 <= i < count && ends_at(
                arrivals[(#[trigger] walks[i]).0 as int],
                walks[i].1,
                best,
            ),
    decreases count,
{
    if count > 0 {
        law_earliest_adds_the_walk(arrivals, walks, count - 1);
        let before = earliest(arrivals, walks, count - 1);
        if let Some(best) = earliest(arrivals, walks, count) {
            if before != Some(best) {
                assert(ends_at(
                    arrivals[walks[count - 1].0 as int],
                    walks[count - 1].1,
                    best,
                ));
            }
        }
    }
}

/// Folding final walks leaves an unlocated stop's arrival as it was. A
/// located stop is reached over its walks alone, by the earliest of them.
pub proof fn law_folding_takes_the_earliest_walk(
    arrivals: Seq<Option<u32>>,
    egress: Seq<Option<Vec<(u32, u32)>>>,
    target: int,
)
    requires
        0 <= target < arrivals.len(),
    ensures
        ({
            let after = folded(arrivals, walks_to(egress, target), target);
            &&& target >= egress.len() ==> after == arrivals[target]
            &&& target < egress.len() && egress[target] is None ==> after == arrivals[target]
            &&& target < egress.len() ==> (egress[target] matches Some(walks) ==> {
                &&& forall|i: int|
                    0 <= i < walks@.len() && arrivals[(#[trigger] walks@[i]).0 as int] is Some
                        && arrivals[walks@[i].0 as int]->0 + walks@[i].1 < u32::MAX ==> after is Some
                        && after->0 <= arrivals[walks@[i].0 as int]->0 + walks@[i].1
                &&& after matches Some(best) ==> exists|i: int|
                    0 <= i < walks@.len() && ends_at(
                        arrivals[(#[trigger] walks@[i]).0 as int],
                        walks@[i].1,
                        best,
                    )
            })
        }),
{
    if target < egress.len() {
        if let Some(walks) = egress[target] {
            law_earliest_adds_the_walk(arrivals, walks@, walks@.len() as int);
        }
    }
}

/// Whether a link has a walk to a stop of these seconds and meters.
pub open spec fn walks_there(
    link: Option<Vec<WalkedStop>>,
    stop: int,
    seconds: u32,
    meters: u64,
) -> bool {
    link is Some && exists|w: int|
        0 <= w < link->0@.len() && (#[trigger] link->0@[w]).stop == stop
            && link->0@[w].seconds == seconds && link->0@[w].meters == meters
}

proof fn lemma_source_entries(walks: Seq<WalkedStop>, source: int, slot: u32, count: int)
    requires
        0 <= count <= walks.len(),
    ensures
        forall|w: int|
            0 <= w < count && (#[trigger] walks[w]).stop == source ==> source_entries(
                walks,
                source,
                slot,
                count,
            ).contains((slot, walks[w].seconds, walks[w].meters)),
        forall|k: int|
            0 <= k < source_entries(walks, source, slot, count).len() ==> (
            #[trigger] source_entries(walks, source, slot, count)[k]).0 == slot && exists|w: int|
                0 <= w < count && (#[trigger] walks[w]).stop == source && walks[w].seconds
                    == source_entries(walks, source, slot, count)[k].1 && walks[w].meters
                    == source_entries(walks, source, slot, count)[k].2,
    decreases count,
{
    if count > 0 {
        lemma_source_entries(walks, source, slot, count - 1);
        let before = source_entries(walks, source, slot, count - 1);
        let after = source_entries(walks, source, slot, count);
        assert forall|w: int|
            0 <= w < count && (#[trigger] walks[w]).stop == source implies after.contains(
            (slot, walks[w].seconds, walks[w].meters),
        ) by {
            let entry = (slot, walks[w].seconds, walks[w].meters);
            if w < count - 1 {
                assert(before.contains(entry));
                let at = choose|at: int| 0 <= at < before.len() && before[at] == entry;
                assert(after[at] == entry);
            } else {
                assert(after[after.len() - 1] == entry);
            }
        }
        assert forall|k: int| 0 <= k < after.len() implies (#[trigger] after[k]).0 == slot
            && exists|w: int|
            0 <= w < count && (#[trigger] walks[w]).stop == source && walks[w].seconds
                == after[k].1 && walks[w].meters == after[k].2 by {
            if k < before.len() {
                assert(after[k] == before[k]);
                let w = choose|w: int|
                    0 <= w < count - 1 && (#[trigger] walks[w]).stop == source
                        && walks[w].seconds == before[k].1 && walks[w].meters == before[k].2;
                assert(walks[w].stop == source);
            } else {
                assert(walks[count - 1].stop == source);
            }
        }
    }
}

/// The street egress off a stop has an entry for every walk of a located
/// destination's link that starts at the stop, and no other: each entry names
/// its destination and has such a walk's seconds and meters, and the
/// destinations come in order.
pub proof fn law_street_egress_turns_links_around(
    slots: Seq<Option<usize>>,
    links: Seq<Option<Vec<WalkedStop>>>,
    source: int,
    count: int,
)
    requires
        0 <= count <= slots.len() <= u32::MAX,
    ensures
        ({
            let entries = street_entries(slots, links, source, count);
            &&& forall|d: int, w: int|
                0 <= d < count && slots[d] is Some && links[slots[d]->0 as int] is Some && 0 <= w
                    < links[slots[d]->0 as int]->0@.len() && (
                #[trigger] links[slots[d]->0 as int]->0@[w]).stop == source ==> entries.contains(
                    (
                        d as u32,
                        links[slots[d]->0 as int]->0@[w].seconds,
                        links[slots[d]->0 as int]->0@[w].meters,
                    ),
                )
            &&& forall|k: int|
                0 <= k < entries.len() ==> (#[trigger] entries[k]).0 < count
                    && slots[entries[k].0 as int] is Some && walks_there(
                    links[slots[entries[k].0 as int]->0 as int],
                    source,
                    entries[k].1,
                    entries[k].2,
                )
            &&& forall|j: int, k: int|
                0 <= j < k < entries.len() ==> (#[trigger] entries[j]).0 <= (
                #[trigger] entries[k]).0
        }),
    decreases count,
{
    if count > 0 {
        law_street_egress_turns_links_around(slots, links, source, count - 1);
        let before = street_entries(slots, links, source, count - 1);
        let entries = street_entries(slots, links, source, count);
        if let Some(slot) = slots[count - 1] {
            let walks = walks_of(links[slot as int]);
            let own = source_entries(walks, source, (count - 1) as u32, walks.len() as int);
            lemma_source_entries(walks, source, (count - 1) as u32, walks.len() as int);
            assert(entries == before + own);
            assert forall|d: int, w: int|
                0 <= d < count && slots[d] is Some && links[slots[d]->0 as int] is Some && 0 <= w
                    < links[slots[d]->0 as int]->0@.len() && (
                #[trigger] links[slots[d]->0 as int]->0@[w]).stop
                    == source implies entries.contains(
                (
                    d as u32,
                    links[slots[d]->0 as int]->0@[w].seconds,
                    links[slots[d]->0 as int]->0@[w].meters,
                ),
            ) by {
                let walk = links[slots[d]->0 as int]->0@[w];
                let entry = (d as u32, walk.seconds, walk.meters);
                if d < count - 1 {
                    assert(before.contains(entry));
                    let at = choose|at: int| 0 <= at < before.len() && before[at] == entry;
                    assert(entries[at] == entry);
                } else {
                    assert(walks[w] == walk);
                    assert(own.contains(entry));
                    let at = choose|at: int| 0 <= at < own.len() && own[at] == entry;
                    assert(entries[before.len() + at] == entry);
                }
            }
            assert forall|k: int| 0 <= k < entries.len() implies (#[trigger] entries[k]).0 < count
                && slots[entries[k].0 as int] is Some && walks_there(
                links[slots[entries[k].0 as int]->0 as int],
                source,
                entries[k].1,
                entries[k].2,
            ) by {
                if k < before.len() {
                    assert(entries[k] == before[k]);
                } else {
                    let at = k - before.len();
                    assert(entries[k] == own[at]);
                    let w = choose|w: int|
                        0 <= w < walks.len() && (#[trigger] walks[w]).stop == source
                            && walks[w].seconds == own[at].1 && walks[w].meters == own[at].2;
                    assert(links[slot as int]->0@[w].stop == source);
                }
            }
            assert forall|j: int, k: int| 0 <= j < k < entries.len() implies (
            #[trigger] entries[j]).0 <= (#[trigger] entries[k]).0 by {
                if k < before.len() {
                    assert(entries[j] == before[j] && entries[k] == before[k]);
                } else {
                    assert(entries[k] == own[k - before.len()]);
                    if j < before.len() {
                        assert(entries[j] == before[j]);
                    } else {
                        assert(entries[j] == own[j - before.len()]);
                    }
                }
            }
        }
    }
}

/// The bare entries at a stop are its own destinations that have no
/// coordinate, each once, in order, at no cost.
pub proof fn law_bare_entries_are_unlocated(
    slots: Seq<Option<usize>>,
    destinations: Seq<u32>,
    source: int,
    count: int,
)
    requires
        0 <= count <= slots.len() <= u32::MAX,
    ensures
        ({
            let entries = bare_entries(slots, destinations, source, count);
            &&& forall|d: int|
                0 <= d < count && #[trigger] slots[d] is None && destinations[d] == source
                    ==> entries.contains((d as u32, 0u32, 0u64))
            &&& forall|k: int|
                0 <= k < entries.len() ==> (#[trigger] entries[k]).0 < count && entries[k].1 == 0
                    && entries[k].2 == 0 && slots[entries[k].0 as int] is None
                    && destinations[entries[k].0 as int] == source
            &&& forall|j: int, k: int|
                0 <= j < k < entries.len() ==> (#[trigger] entries[j]).0 < (#[trigger] entries[k]).0
        }),
    decreases count,
{
    if count > 0 {
        law_bare_entries_are_unlocated(slots, destinations, source, count - 1);
        let before = bare_entries(slots, destinations, source, count - 1);
        let entries = bare_entries(slots, destinations, source, count);
        assert forall|d: int|
            0 <= d < count && #[trigger] slots[d] is None && destinations[d]
                == source implies entries.contains((d as u32, 0u32, 0u64)) by {
            let entry = (d as u32, 0u32, 0u64);
            if d < count - 1 {
                assert(before.contains(entry));
                let at = choose|at: int| 0 <= at < before.len() && before[at] == entry;
                assert(entries[at] == entry);
            } else {
                assert(entries[entries.len() - 1] == entry);
            }
        }
    }
}

/// An origin goes door to door exactly where it has a slot whose link is not
/// missing, over that link's walks; any other boards at its own stop at no
/// cost.
pub proof fn law_location_access_is_the_link(
    origin: u32,
    slot: Option<usize>,
    links: Seq<Option<Vec<WalkedStop>>>,
    i: int,
)
    requires
        slot matches Some(at) ==> at < links.len(),
    ensures
        slot is None || links[slot->0 as int] is None ==> {
            &&& !is_located(slot, links)
            &&& location_access(origin, slot, links).len() == 1
            &&& location_access(origin, slot, links)[0].0 == origin
            &&& location_access(origin, slot, links)[0].1 == 0
            &&& location_access(origin, slot, links)[0].2 == 0
        },
        slot is Some ==> (links[slot->0 as int] matches Some(walks) ==> {
            &&& is_located(slot, links)
            &&& location_access(origin, slot, links).len() == walks@.len()
            &&& 0 <= i < walks@.len() ==> {
                &&& location_access(origin, slot, links)[i].0 == walks@[i].stop
                &&& location_access(origin, slot, links)[i].1 == walks@[i].seconds
                &&& location_access(origin, slot, links)[i].2 == walks@[i].meters
            }
        }),
{
}

/// The direct walks of an origin list every destination that the walking
/// table holds a walk to, each once, in order, with the walk's seconds and
/// meters; an origin that has no row has none.
pub proof fn law_direct_walks_are_the_tables(
    row: Option<usize>,
    columns: Seq<Option<usize>>,
    walks: Seq<Vec<Option<(u32, u64)>>>,
    count: int,
)
    requires
        0 <= count <= columns.len() <= u32::MAX,
    ensures
        ({
            let direct = direct_walks(row, columns, walks, count);
            &&& row is None ==> direct.len() == 0
            &&& forall|d: int|
                0 <= d < count && row is Some && #[trigger] columns[d] is Some
                    && walks[row->0 as int]@[columns[d]->0 as int] is Some ==> direct.contains(
                    (
                        d as u32,
                        (walks[row->0 as int]@[columns[d]->0 as int]->0).0,
                        (walks[row->0 as int]@[columns[d]->0 as int]->0).1,
                    ),
                )
            &&& forall|k: int|
                0 <= k < direct.len() ==> (#[trigger] direct[k]).0 < count
                    && columns[direct[k].0 as int] is Some
                    && walks[row->0 as int]@[columns[direct[k].0 as int]->0 as int] == Some(
                    (direct[k].1, direct[k].2),
                )
            &&& forall|j: int, k: int|
                0 <= j < k < direct.len() ==> (#[trigger] direct[j]).0 < (#[trigger] direct[k]).0
        }),
    decreases count,
{
    if count > 0 {
        law_direct_walks_are_the_tables(row, columns, walks, count - 1);
        let before = direct_walks(row, columns, walks, count - 1);
        let direct = direct_walks(row, columns, walks, count);
        assert forall|d: int|
            0 <= d < count && row is Some && #[trigger] columns[d] is Some
                && walks[row->0 as int]@[columns[d]->0 as int] is Some implies direct.contains(
            (
                d as u32,
                (walks[row->0 as int]@[columns[d]->0 as int]->0).0,
                (walks[row->0 as int]@[columns[d]->0 as int]->0).1,
            ),
        ) by {
            let walk = walks[row->0 as int]@[columns[d]->0 as int]->0;
            let entry = (d as u32, walk.0, walk.1);
            if d < count - 1 {
                assert(before.contains(entry));
                let at = choose|at: int| 0 <= at < before.len() && before[at] == entry;
                assert(direct[at] == entry);
            } else {
                assert(direct[direct.len() - 1] == entry);
            }
        }
    }
}

/// A coordinate is accepted exactly where both of its sides are finite and it
/// snaps to the network.
pub proof fn law_coordinates_are_refused_for_cause(
    side: Seq<char>,
    point: QueryPoint,
    max_snap: Seq<char>,
)
    ensures
        coordinate_fault(side, point, max_snap) is None <==> f64_is_finite(point.lat)
            && f64_is_finite(point.lon) && point.links is Some,
{
}

/// The located points are the known coordinates, each at its slot; an unknown
/// coordinate has no slot, and every point has as many known ones before it as
/// its slot says.
pub proof fn law_located_points_are_the_coordinates(
    located: Located,
    coordinates: Seq<Option<(u64, u64)>>,
    i: int,
)
    requires
        located.splits(coordinates),
        0 <= i < coordinates.len(),
    ensures
        located.slots@.len() == coordinates.len(),
        coordinates[i] is None <==> located.slots@[i] is None,
        coordinates[i] matches Some(place) ==> located.slots@[i]->0 < located.points@.len()
            && located.points@[located.slots@[i]->0 as int] == place,
{
    assert(located.slots@[i] == slot_of(coordinates, i));
}

} // verus!
