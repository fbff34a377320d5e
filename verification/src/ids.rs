//! Public identifiers and the lookup tables behind them.
//!
//! A network of one feed shows GTFS ids as they are; one of several merged
//! feeds qualifies them as `<feed_index>:<id>`.

use crate::options::{lemma_decimal_has_no_colon, lemma_decimal_is_faithful};
use crate::text::{decimal, decimal_text, joined, joined_text, ValueError};
use vstd::hash_map::StringHashMap;
use vstd::prelude::*;

verus! {

/// A lookup that found nothing, or more than one thing.
#[derive(Debug)]
pub struct KeyError {
    pub message: String,
}

/// A stop or trip of a feed: the feed's index and the id inside it.
pub struct FeedId {
    pub feed: u32,
    pub id: String,
}

pub open spec fn qualified_text(feed: u32, id: Seq<char>) -> Seq<char> {
    decimal_text(feed as nat).push(':') + id
}

/// The public form of an identifier.
pub open spec fn public_text(feed_count: u32, feed: u32, id: Seq<char>) -> Seq<char> {
    if feed_count > 1 {
        qualified_text(feed, id)
    } else {
        id
    }
}

fn qualified(feed: u32, id: &str) -> (text: String)
    ensures
        text@ == qualified_text(feed, id@),
{
    let mut text: String = decimal(feed as u64);
    text.append(":");
    text.append(id);
    proof {
        reveal_strlit(":");
        assert(":"@ =~= seq![':']);
        assert(decimal_text(feed as nat) + ":"@ =~= decimal_text(feed as nat).push(':'));
    }
    text
}

/// The public form of an identifier: raw for a single feed, qualified when
/// several feeds are merged.
pub fn public_id(feed_count: u32, feed: u32, id: &str) -> (text: String)
    ensures
        text@ == public_text(feed_count, feed, id@),
{
    if feed_count > 1 {
        qualified(feed, id)
    } else {
        id.to_owned()
    }
}

/// Why a request is refused: a bad value, or an id that does not resolve.
#[derive(Debug)]
pub enum Refusal {
    Value(ValueError),
    Key(KeyError),
}

/// What a request is refused for, with the text.
pub enum Fault {
    Value(Seq<char>),
    Key(Seq<char>),
}

pub open spec fn refused_for(refusal: Refusal, fault: Fault) -> bool {
    match (refusal, fault) {
        (Refusal::Value(error), Fault::Value(text)) => error.message@ == text,
        (Refusal::Key(error), Fault::Key(text)) => error.message@ == text,
        _ => false,
    }
}

/// Resolution of a raw GTFS stop_id, which merged feeds can duplicate.
#[derive(Debug, Clone, Copy, PartialEq, Eq, Structural)]
pub enum StopLookup {
    Unique(u32),
    Ambiguous,
}

/// What a raw id stands for among the first `count` stops.
pub open spec fn raw_lookup(stops: Seq<FeedId>, id: Seq<char>, count: int) -> Option<StopLookup>
    decreases count,
{
    if count <= 0 {
        None
    } else {
        let before = raw_lookup(stops, id, count - 1);
        if stops[count - 1].id@ == id {
            match before {
                None => Some(StopLookup::Unique((count - 1) as u32)),
                Some(_) => Some(StopLookup::Ambiguous),
            }
        } else {
            before
        }
    }
}

/// The last of the first `count` entries whose qualified id is that text.
pub open spec fn qualified_lookup(stops: Seq<FeedId>, text: Seq<char>, count: int) -> Option<u32>
    decreases count,
{
    if count <= 0 {
        None
    } else if qualified_text(stops[count - 1].feed, stops[count - 1].id@) == text {
        Some((count - 1) as u32)
    } else {
        qualified_lookup(stops, text, count - 1)
    }
}

/// The lookup tables derived from a feed's stops.
pub struct StopIndex {
    by_id: StringHashMap<StopLookup>,
    by_qualified_id: StringHashMap<u32>,
    feed_count: u32,
    stops: Ghost<Seq<FeedId>>,
}

/// A map lookup as an option.
pub open spec fn looked_up<V>(map: Map<Seq<char>, V>, key: Seq<char>) -> Option<V> {
    if map.contains_key(key) {
        Some(map[key])
    } else {
        None
    }
}

impl StopIndex {
    pub closed spec fn stops(&self) -> Seq<FeedId> {
        self.stops@
    }

    pub closed spec fn feed_count(&self) -> u32 {
        self.feed_count
    }

    pub closed spec fn wf(&self) -> bool {
        let count = self.stops@.len() as int;
        &&& forall|id: Seq<char>| #[trigger]
            looked_up(self.by_id@, id) == raw_lookup(self.stops@, id, count)
        &&& forall|text: Seq<char>| #[trigger]
            looked_up(self.by_qualified_id@, text) == qualified_lookup(self.stops@, text, count)
    }

    /// Derives the tables from the stops, in index order.
    pub fn new(stops: &Vec<FeedId>, feed_count: u32) -> (index: StopIndex)
        requires
            stops@.len() <= u32::MAX,
        ensures
            index.wf(),
            index.stops() == stops@,
            index.feed_count() == feed_count,
    {
        let mut by_id: StringHashMap<StopLookup> = StringHashMap::new();
        let mut by_qualified_id: StringHashMap<u32> = StringHashMap::new();
        let mut at: usize = 0;
        while at < stops.len()
            invariant
                at <= stops@.len() <= u32::MAX,
                forall|id: Seq<char>| #[trigger]
                    looked_up(by_id@, id) == raw_lookup(stops@, id, at as int),
                forall|text: Seq<char>| #[trigger]
                    looked_up(by_qualified_id@, text) == qualified_lookup(
                        stops@,
                        text,
                        at as int,
                    ),
            decreases stops.len() - at,
        {
            let stop = &stops[at];
            let ghost held = by_id@;
            let ghost held_qualified = by_qualified_id@;
            by_qualified_id.insert(qualified(stop.feed, stop.id.as_str()), at as u32);
            let lookup: StopLookup = match by_id.get(stop.id.as_str()) {
                Some(_) => StopLookup::Ambiguous,
                None => StopLookup::Unique(at as u32),
            };
            by_id.insert(stop.id.clone(), lookup);
            proof {
                assert forall|id: Seq<char>| #[trigger]
                    looked_up(by_id@, id) == raw_lookup(stops@, id, at + 1) by {
                    assert(looked_up(held, id) == raw_lookup(stops@, id, at as int));
                    assert(looked_up(held, stop.id@) == raw_lookup(
                        stops@,
                        stop.id@,
                        at as int,
                    ));
                }
                assert forall|text: Seq<char>| #[trigger]
                    looked_up(by_qualified_id@, text) == qualified_lookup(
                        stops@,
                        text,
                        at + 1,
                    ) by {
                    assert(looked_up(held_qualified, text) == qualified_lookup(
                        stops@,
                        text,
                        at as int,
                    ));
                }
            }
            at += 1;
        }
        StopIndex { by_id, by_qualified_id, feed_count, stops: Ghost(stops@) }
    }

    /// Resolves a stop identifier. In merged networks the feed-qualified
    /// form takes precedence, so a raw stop_id that happens to look like
    /// another stop's qualified id must itself be fully qualified.
    pub fn resolve_stop(&self, stop_id: &str) -> (stop: Result<u32, KeyError>)
        requires
            self.wf(),
        ensures
            match resolved_stop(self.stops(), self.feed_count(), stop_id@) {
                Ok(expected) => stop == Ok::<u32, KeyError>(expected),
                Err(text) => stop matches Err(error) && error.message@ == text,
            },
    {
        proof {
            let ghost_id = stop_id@;
            assert(looked_up(self.by_qualified_id@, ghost_id) == qualified_lookup(
                self.stops@,
                ghost_id,
                self.stops@.len() as int,
            ));
            assert(looked_up(self.by_id@, ghost_id) == raw_lookup(
                self.stops@,
                ghost_id,
                self.stops@.len() as int,
            ));
        }
        if self.feed_count > 1 {
            if let Some(stop) = self.by_qualified_id.get(stop_id) {
                return Ok(*stop);
            }
        }
        match self.by_id.get(stop_id) {
            Some(StopLookup::Unique(stop)) => Ok(*stop),
            Some(StopLookup::Ambiguous) => {
                let pieces: [&str; 5] = [
                    "stop_id '",
                    stop_id,
                    "' occurs in several feeds; qualify it as '<feed_index>:",
                    stop_id,
                    "'",
                ];
                let message = joined(&pieces);
                assert(pieces@.map_values(|piece: &str| piece@) =~= seq![
                    "stop_id '"@,
                    stop_id@,
                    "' occurs in several feeds; qualify it as '<feed_index>:"@,
                    stop_id@,
                    "'"@,
                ]);
                Err(KeyError { message })
            },
            None => {
                let pieces: [&str; 3] = ["unknown stop_id '", stop_id, "'"];
                let message = joined(&pieces);
                assert(pieces@.map_values(|piece: &str| piece@) =~= seq![
                    "unknown stop_id '"@,
                    stop_id@,
                    "'"@,
                ]);
                Err(KeyError { message })
            },
        }
    }

    /// Resolves identifiers in order; the first that fails decides.
    pub fn resolve_stops(&self, stop_ids: &Vec<String>) -> (stops: Result<Vec<u32>, KeyError>)
        requires
            self.wf(),
        ensures
            match resolved_stops(
                self.stops(),
                self.feed_count(),
                stop_ids@,
                stop_ids@.len() as int,
            ) {
                Ok(expected) => stops matches Ok(stops) && stops@ == expected,
                Err(text) => stops matches Err(error) && error.message@ == text,
            },
    {
        let mut stops: Vec<u32> = Vec::new();
        let mut at: usize = 0;
        while at < stop_ids.len()
            invariant
                self.wf(),
                at <= stop_ids@.len(),
                resolved_stops(self.stops(), self.feed_count(), stop_ids@, at as int) == Ok::<
                    Seq<u32>,
                    Seq<char>,
                >(stops@),
            decreases stop_ids.len() - at,
        {
            match self.resolve_stop(stop_ids[at].as_str()) {
                Ok(stop) => {
                    stops.push(stop);
                },
                Err(error) => {
                    proof {
                        lemma_resolved_stops_stays_err(
                            self.stops(),
                            self.feed_count(),
                            stop_ids@,
                            at + 1,
                            stop_ids@.len() as int,
                        );
                    }
                    return Err(error);
                },
            }
            at += 1;
        }
        Ok(stops)
    }
}

pub open spec fn ambiguous_stop_text(stop_id: Seq<char>) -> Seq<char> {
    joined_text(
        seq![
            "stop_id '"@,
            stop_id,
            "' occurs in several feeds; qualify it as '<feed_index>:"@,
            stop_id,
            "'"@,
        ],
    )
}

/// What a stop identifier resolves to.
pub open spec fn resolved_stop(stops: Seq<FeedId>, feed_count: u32, stop_id: Seq<char>) -> Result<
    u32,
    Seq<char>,
> {
    let count = stops.len() as int;
    if feed_count > 1 && qualified_lookup(stops, stop_id, count) is Some {
        Ok(qualified_lookup(stops, stop_id, count)->0)
    } else {
        match raw_lookup(stops, stop_id, count) {
            Some(StopLookup::Unique(stop)) => Ok(stop),
            Some(StopLookup::Ambiguous) => Err(ambiguous_stop_text(stop_id)),
            None => Err(joined_text(seq!["unknown stop_id '"@, stop_id, "'"@])),
        }
    }
}

/// The first `count` identifiers resolved, or the first failure among them.
pub open spec fn resolved_stops(
    stops: Seq<FeedId>,
    feed_count: u32,
    stop_ids: Seq<String>,
    count: int,
) -> Result<Seq<u32>, Seq<char>>
    decreases count,
{
    if count <= 0 {
        Ok(Seq::empty())
    } else {
        match resolved_stops(stops, feed_count, stop_ids, count - 1) {
            Err(text) => Err(text),
            Ok(before) => match resolved_stop(stops, feed_count, stop_ids[count - 1]@) {
                Ok(stop) => Ok(before.push(stop)),
                Err(text) => Err(text),
            },
        }
    }
}

proof fn lemma_resolved_stops_stays_err(
    stops: Seq<FeedId>,
    feed_count: u32,
    stop_ids: Seq<String>,
    few: int,
    many: int,
)
    requires
        few <= many,
        resolved_stops(stops, feed_count, stop_ids, few) is Err,
    ensures
        resolved_stops(stops, feed_count, stop_ids, many) == resolved_stops(
            stops,
            feed_count,
            stop_ids,
            few,
        ),
    decreases many - few,
{
    if few < many {
        lemma_resolved_stops_stays_err(stops, feed_count, stop_ids, few, many - 1);
    }
}

/// Whether no two entries share both feed and id.
pub open spec fn distinct_ids(stops: Seq<FeedId>) -> bool {
    forall|i: int, j: int|
        0 <= i < j < stops.len() ==> !((#[trigger] stops[i]).feed == (#[trigger] stops[j]).feed
            && stops[i].id@ == stops[j].id@)
}

proof fn lemma_qualified_is_faithful(feed: u32, id: Seq<char>, other: u32, other_id: Seq<char>)
    requires
        qualified_text(feed, id) == qualified_text(other, other_id),
    ensures
        feed == other,
        id == other_id,
{
    let left = decimal_text(feed as nat);
    let right = decimal_text(other as nat);
    let text = qualified_text(feed, id);
    let same = qualified_text(other, other_id);
    lemma_decimal_has_no_colon(feed as nat);
    lemma_decimal_has_no_colon(other as nat);
    assert(text[left.len() as int] == ':');
    assert(same[right.len() as int] == ':');
    if left.len() < right.len() {
        assert(same[left.len() as int] == right[left.len() as int]);
        assert(false);
    }
    if right.len() < left.len() {
        assert(text[right.len() as int] == left[right.len() as int]);
        assert(false);
    }
    assert forall|i: int| 0 <= i < left.len() implies left[i] == right[i] by {
        assert(text[i] == left[i]);
        assert(same[i] == right[i]);
    }
    assert(left =~= right);
    lemma_decimal_is_faithful(feed as nat, other as nat);
    assert(id =~= text.subrange(left.len() as int + 1, text.len() as int));
    assert(other_id =~= same.subrange(right.len() as int + 1, same.len() as int));
}

proof fn lemma_qualified_lookup_finds(stops: Seq<FeedId>, stop: int, count: int)
    requires
        0 <= stop < count <= stops.len(),
        stops.len() <= u32::MAX,
        distinct_ids(stops),
    ensures
        qualified_lookup(stops, qualified_text(stops[stop].feed, stops[stop].id@), count) == Some(
            stop as u32,
        ),
    decreases count,
{
    let text = qualified_text(stops[stop].feed, stops[stop].id@);
    let last = count - 1;
    if last != stop {
        if qualified_text(stops[last].feed, stops[last].id@) == text {
            lemma_qualified_is_faithful(
                stops[last].feed,
                stops[last].id@,
                stops[stop].feed,
                stops[stop].id@,
            );
            assert(!(stops[stop].feed == stops[last].feed && stops[stop].id@ == stops[last].id@));
        }
        lemma_qualified_lookup_finds(stops, stop, last);
    }
}

proof fn lemma_raw_lookup_finds(stops: Seq<FeedId>, stop: int, count: int)
    requires
        0 <= stop < stops.len(),
        0 <= count <= stops.len(),
        forall|i: int|
            0 <= i < stops.len() && i != stop ==> (#[trigger] stops[i]).id@ != stops[stop].id@,
    ensures
        raw_lookup(stops, stops[stop].id@, count) == if stop < count {
            Some(StopLookup::Unique(stop as u32))
        } else {
            None
        },
    decreases count,
{
    if count > 0 {
        lemma_raw_lookup_finds(stops, stop, count - 1);
    }
}

/// The public id of a stop resolves to that stop: in a merged network
/// because the qualified form takes precedence, in a single feed because its
/// ids are unique.
pub proof fn law_public_stop_ids_resolve(stops: Seq<FeedId>, feed_count: u32, stop: int)
    requires
        0 <= stop < stops.len() <= u32::MAX,
        distinct_ids(stops),
        feed_count <= 1 ==> forall|i: int, j: int|
            0 <= i < stops.len() && 0 <= j < stops.len() ==> (#[trigger] stops[i]).feed == (
            #[trigger] stops[j]).feed,
    ensures
        resolved_stop(stops, feed_count, public_text(feed_count, stops[stop].feed, stops[stop].id@))
            == Ok::<u32, Seq<char>>(stop as u32),
{
    if feed_count > 1 {
        lemma_qualified_lookup_finds(stops, stop, stops.len() as int);
    } else {
        assert forall|i: int| 0 <= i < stops.len() && i != stop implies (#[trigger] stops[i]).id@
            != stops[stop].id@ by {
            assert(stops[i].feed == stops[stop].feed);
        }
        lemma_raw_lookup_finds(stops, stop, stops.len() as int);
    }
}

/// The last of the first `count` trips with that public id.
pub open spec fn trip_lookup(
    trips: Seq<FeedId>,
    feed_count: u32,
    text: Seq<char>,
    count: int,
) -> Option<u32>
    decreases count,
{
    if count <= 0 {
        None
    } else if public_text(feed_count, trips[count - 1].feed, trips[count - 1].id@) == text {
        Some((count - 1) as u32)
    } else {
        trip_lookup(trips, feed_count, text, count - 1)
    }
}

/// The routable trips by public id.
pub struct TripIndex {
    by_public_id: StringHashMap<u32>,
    trips: Ghost<Seq<FeedId>>,
    feed_count: u32,
}

impl TripIndex {
    pub closed spec fn trips(&self) -> Seq<FeedId> {
        self.trips@
    }

    pub closed spec fn feed_count(&self) -> u32 {
        self.feed_count
    }

    pub closed spec fn wf(&self) -> bool {
        forall|text: Seq<char>| #[trigger]
            looked_up(self.by_public_id@, text) == trip_lookup(
                self.trips@,
                self.feed_count,
                text,
                self.trips@.len() as int,
            )
    }

    /// Derives the table from each trip's source record, in trip order.
    pub fn new(trips: &Vec<FeedId>, feed_count: u32) -> (index: TripIndex)
        requires
            trips@.len() <= u32::MAX,
        ensures
            index.wf(),
            index.trips() == trips@,
            index.feed_count() == feed_count,
    {
        let mut by_public_id: StringHashMap<u32> = StringHashMap::new();
        let mut at: usize = 0;
        while at < trips.len()
            invariant
                at <= trips@.len() <= u32::MAX,
                forall|text: Seq<char>| #[trigger]
                    looked_up(by_public_id@, text) == trip_lookup(
                        trips@,
                        feed_count,
                        text,
                        at as int,
                    ),
            decreases trips.len() - at,
        {
            let trip = &trips[at];
            let ghost held = by_public_id@;
            by_public_id.insert(public_id(feed_count, trip.feed, trip.id.as_str()), at as u32);
            proof {
                assert forall|text: Seq<char>| #[trigger]
                    looked_up(by_public_id@, text) == trip_lookup(
                        trips@,
                        feed_count,
                        text,
                        at + 1,
                    ) by {
                    assert(looked_up(held, text) == trip_lookup(
                        trips@,
                        feed_count,
                        text,
                        at as int,
                    ));
                }
            }
            at += 1;
        }
        TripIndex { by_public_id, trips: Ghost(trips@), feed_count }
    }

    /// The trip with a public id, if it is routable.
    pub fn find(&self, trip_id: &str) -> (trip: Option<u32>)
        requires
            self.wf(),
        ensures
            trip == trip_lookup(
                self.trips(),
                self.feed_count(),
                trip_id@,
                self.trips().len() as int,
            ),
    {
        proof {
            let text = trip_id@;
            assert(looked_up(self.by_public_id@, text) == trip_lookup(
                self.trips@,
                self.feed_count,
                text,
                self.trips@.len() as int,
            ));
        }
        match self.by_public_id.get(trip_id) {
            Some(trip) => Some(*trip),
            None => None,
        }
    }

    /// The factor per trip (doubles' bits) that a table of public ids and
    /// factors gives: NaN where it names none, the last of several, unknown
    /// ids ignored.
    pub fn per_trip_factors(&self, factors: &Vec<(String, u64)>, trip_count: usize) -> (per_trip:
        Vec<u64>)
        requires
            self.wf(),
            self.trips().len() == trip_count <= u32::MAX,
        ensures
            per_trip@ == factor_vector(
                self.trips(),
                self.feed_count(),
                factors@,
                factors@.len() as int,
            ),
    {
        let mut per_trip: Vec<u64> = Vec::new();
        let mut filled: usize = 0;
        while filled < trip_count
            invariant
                filled <= trip_count,
                per_trip@ == Seq::new(filled as nat, |i: int| UNRESOLVED),
            decreases trip_count - filled,
        {
            per_trip.push(UNRESOLVED);
            filled += 1;
            assert(per_trip@ =~= Seq::new(filled as nat, |i: int| UNRESOLVED));
        }
        let mut at: usize = 0;
        while at < factors.len()
            invariant
                self.wf(),
                at <= factors@.len(),
                self.trips().len() == trip_count <= u32::MAX,
                per_trip@.len() == trip_count,
                per_trip@ == factor_vector(
                    self.trips(),
                    self.feed_count(),
                    factors@,
                    at as int,
                ),
            decreases factors.len() - at,
        {
            if let Some(trip) = self.find(factors[at].0.as_str()) {
                proof {
                    lemma_trip_lookup_in_range(
                        self.trips(),
                        self.feed_count(),
                        factors@[at as int].0@,
                        self.trips().len() as int,
                    );
                }
                per_trip.set(trip as usize, factors[at].1);
            }
            at += 1;
        }
        per_trip
    }
}

/// The quiet NaN that stands for an unresolved factor.
pub const UNRESOLVED: u64 = 0x7FF8_0000_0000_0000;

/// The factor vector after the first `count` table entries.
pub open spec fn factor_vector(
    trips: Seq<FeedId>,
    feed_count: u32,
    factors: Seq<(String, u64)>,
    count: int,
) -> Seq<u64>
    decreases count,
{
    if count <= 0 {
        Seq::new(trips.len(), |i: int| UNRESOLVED)
    } else {
        let before = factor_vector(trips, feed_count, factors, count - 1);
        match trip_lookup(trips, feed_count, factors[count - 1].0@, trips.len() as int) {
            Some(trip) => before.update(trip as int, factors[count - 1].1),
            None => before,
        }
    }
}

proof fn lemma_trip_lookup_in_range(
    trips: Seq<FeedId>,
    feed_count: u32,
    text: Seq<char>,
    count: int,
)
    requires
        count <= trips.len() <= u32::MAX,
    ensures
        trip_lookup(trips, feed_count, text, count) matches Some(trip) ==> trip < count,
    decreases count,
{
    if count > 0 {
        lemma_trip_lookup_in_range(trips, feed_count, text, count - 1);
    }
}

/// The mask value of a banned route, above every penalty.
pub const BANNED: u32 = 0xFFFF_FFFF;

/// The last penalty that the first `count` table entries give a route.
pub open spec fn penalty_for(penalties: Seq<(String, u64)>, id: Seq<char>, count: int) -> u32
    decreases count,
{
    if count <= 0 {
        0
    } else if penalties[count - 1].0@ == id {
        if penalties[count - 1].1 < BANNED - 1 {
            penalties[count - 1].1 as u32
        } else {
            (BANNED - 1) as u32
        }
    } else {
        penalty_for(penalties, id, count - 1)
    }
}

pub open spec fn is_listed(ids: Seq<String>, id: Seq<char>) -> bool {
    exists|i: int| 0 <= i < ids.len() && (#[trigger] ids[i])@ == id
}

/// A route's entry in the penalty mask: a ban wins over a penalty.
pub open spec fn route_penalty(
    banned: Seq<String>,
    penalties: Seq<(String, u64)>,
    id: Seq<char>,
) -> u32 {
    if is_listed(banned, id) {
        BANNED
    } else {
        penalty_for(penalties, id, penalties.len() as int)
    }
}

/// A route-index penalty mask for a diverse search: the ban sentinel for
/// banned public route ids, the given seconds (clamped below the sentinel)
/// for penalized ones, 0 otherwise. Unknown ids are ignored. Empty in, empty
/// out — a missing index reads as free.
pub fn route_penalty_mask(
    routes: &Vec<FeedId>,
    feed_count: u32,
    banned_routes: &Vec<String>,
    route_penalties: &Vec<(String, u64)>,
) -> (mask: Vec<u32>)
    ensures
        banned_routes@.len() == 0 && route_penalties@.len() == 0 ==> mask@.len() == 0,
        !(banned_routes@.len() == 0 && route_penalties@.len() == 0) ==> mask@ == Seq::new(
            routes@.len(),
            |i: int|
                route_penalty(
                    banned_routes@,
                    route_penalties@,
                    public_text(feed_count, routes@[i].feed, routes@[i].id@),
                ),
        ),
{
    let mut mask: Vec<u32> = Vec::new();
    if banned_routes.len() == 0 && route_penalties.len() == 0 {
        return mask;
    }
    let mut banned: StringHashMap<bool> = StringHashMap::new();
    let mut at: usize = 0;
    while at < banned_routes.len()
        invariant
            at <= banned_routes@.len(),
            forall|id: Seq<char>| #[trigger]
                banned@.contains_key(id) == is_listed(banned_routes@.subrange(0, at as int), id),
        decreases banned_routes.len() - at,
    {
        let ghost held = banned@;
        banned.insert(banned_routes[at].clone(), true);
        proof {
            let few = banned_routes@.subrange(0, at as int);
            let more = banned_routes@.subrange(0, at + 1);
            assert forall|id: Seq<char>| #[trigger]
                banned@.contains_key(id) == is_listed(more, id) by {
                assert(held.contains_key(id) == is_listed(few, id));
                if is_listed(few, id) {
                    let i = choose|i: int| 0 <= i < few.len() && (#[trigger] few[i])@ == id;
                    assert(more[i]@ == id);
                }
                if id == banned_routes@[at as int]@ {
                    assert(more[at as int]@ == id);
                }
                if is_listed(more, id) {
                    let i = choose|i: int| 0 <= i < more.len() && (#[trigger] more[i])@ == id;
                    if i < at {
                        assert(few[i]@ == id);
                    }
                }
            }
        }
        at += 1;
    }
    assert(banned_routes@.subrange(0, banned_routes@.len() as int) =~= banned_routes@);
    let mut penalties: StringHashMap<u32> = StringHashMap::new();
    at = 0;
    while at < route_penalties.len()
        invariant
            at <= route_penalties@.len(),
            forall|id: Seq<char>|
                penalty_of(penalties@, id) == #[trigger] penalty_for(
                    route_penalties@,
                    id,
                    at as int,
                ),
        decreases route_penalties.len() - at,
    {
        let seconds: u64 = route_penalties[at].1;
        let clamped: u32 = if seconds < (BANNED - 1) as u64 {
            seconds as u32
        } else {
            BANNED - 1
        };
        let ghost held = penalties@;
        penalties.insert(route_penalties[at].0.clone(), clamped);
        proof {
            assert forall|id: Seq<char>|
                penalty_of(penalties@, id) == #[trigger] penalty_for(
                    route_penalties@,
                    id,
                    at + 1,
                ) by {
                assert(penalty_of(held, id) == penalty_for(route_penalties@, id, at as int));
            }
        }
        at += 1;
    }
    let mut route: usize = 0;
    while route < routes.len()
        invariant
            route <= routes@.len(),
            forall|id: Seq<char>| #[trigger]
                banned@.contains_key(id) == is_listed(banned_routes@, id),
            forall|id: Seq<char>|
                penalty_of(penalties@, id) == #[trigger] penalty_for(
                    route_penalties@,
                    id,
                    route_penalties@.len() as int,
                ),
            mask@ == Seq::new(
                route as nat,
                |i: int|
                    route_penalty(
                        banned_routes@,
                        route_penalties@,
                        public_text(feed_count, routes@[i].feed, routes@[i].id@),
                    ),
            ),
        decreases routes.len() - route,
    {
        let id = public_id(feed_count, routes[route].feed, routes[route].id.as_str());
        let value: u32 = if banned.contains_key(id.as_str()) {
            BANNED
        } else {
            match penalties.get(id.as_str()) {
                Some(seconds) => *seconds,
                None => 0,
            }
        };
        proof {
            assert(penalty_of(penalties@, id@) == penalty_for(
                route_penalties@,
                id@,
                route_penalties@.len() as int,
            ));
        }
        mask.push(value);
        route += 1;
        assert(mask@ =~= Seq::new(
            route as nat,
            |i: int|
                route_penalty(
                    banned_routes@,
                    route_penalties@,
                    public_text(feed_count, routes@[i].feed, routes@[i].id@),
                ),
        ));
    }
    mask
}

spec fn penalty_of(penalties: Map<Seq<char>, u32>, id: Seq<char>) -> u32 {
    if penalties.contains_key(id) {
        penalties[id]
    } else {
        0
    }
}

/// An agency of a feed; its id is optional in a feed with only one.
pub struct Agency {
    pub feed: u32,
    pub id: Option<String>,
}

/// How many of the first `count` agencies belong to a feed.
pub open spec fn agencies_in(agencies: Seq<Agency>, feed: u32, count: int) -> nat
    decreases count,
{
    if count <= 0 {
        0
    } else {
        agencies_in(agencies, feed, count - 1) + if agencies[count - 1].feed == feed {
            1nat
        } else {
            0
        }
    }
}

pub open spec fn text_of(id: Option<String>) -> Option<Seq<char>> {
    match id {
        Some(id) => Some(id@),
        None => None,
    }
}

/// The last agency of a feed among the first `count`.
pub open spec fn last_agency(agencies: Seq<Agency>, feed: u32, count: int) -> Option<Seq<char>>
    decreases count,
{
    if count <= 0 {
        None
    } else if agencies[count - 1].feed == feed {
        text_of(agencies[count - 1].id)
    } else {
        last_agency(agencies, feed, count - 1)
    }
}

/// The agency a route belongs to: its own, or the feed's only one.
pub open spec fn route_agency(
    agencies: Seq<Agency>,
    feed: u32,
    own: Option<Seq<char>>,
) -> Option<Seq<char>> {
    match own {
        Some(id) => Some(id),
        None => if agencies_in(agencies, feed, agencies.len() as int) == 1 {
            last_agency(agencies, feed, agencies.len() as int)
        } else {
            None
        },
    }
}

/// The public agency id of a route. A route without an explicit agency in a
/// single-agency feed carries that feed's one agency.
pub fn public_agency_id(
    agencies: &Vec<Agency>,
    feed_count: u32,
    feed: u32,
    own: &Option<String>,
) -> (agency: Option<String>)
    ensures
        text_of(agency) == match route_agency(agencies@, feed, text_of(*own)) {
            Some(id) => Some(public_text(feed_count, feed, id)),
            None => None,
        },
{
    if let Some(id) = own {
        return Some(public_id(feed_count, feed, id.as_str()));
    }
    let mut found: usize = 0;
    let mut only: usize = 0;
    let mut at: usize = 0;
    while at < agencies.len()
        invariant
            at <= agencies@.len(),
            found <= at,
            found == agencies_in(agencies@, feed, at as int),
            found > 0 ==> only < at && last_agency(agencies@, feed, at as int) == text_of(
                agencies@[only as int].id,
            ),
        decreases agencies.len() - at,
    {
        if agencies[at].feed == feed {
            found += 1;
            only = at;
        }
        at += 1;
    }
    if found == 1 {
        match &agencies[only].id {
            Some(id) => Some(public_id(feed_count, feed, id.as_str())),
            None => None,
        }
    } else {
        None
    }
}

/// In a merged network an identifier is public with its feed's number and a
/// colon before it, in any other as it stands.
pub proof fn law_public_ids_name_the_feed(feed_count: u32, feed: u32, id: Seq<char>)
    ensures
        ({
            let text = public_text(feed_count, feed, id);
            let number = decimal_text(feed as nat);
            &&& feed_count <= 1 ==> text == id
            &&& feed_count > 1 ==> {
                &&& text.len() == number.len() + 1 + id.len()
                &&& text.take(number.len() as int) == number
                &&& text[number.len() as int] == ':'
                &&& text.skip(number.len() as int + 1) == id
            }
        }),
{
    let number = decimal_text(feed as nat);
    if feed_count > 1 {
        let text = public_text(feed_count, feed, id);
        assert(text.take(number.len() as int) =~= number);
        assert(text.skip(number.len() as int + 1) =~= id);
    }
}

/// A raw id is unique where exactly one stop bears it, ambiguous where several
/// do, and unknown where none does.
pub proof fn law_raw_ids_count_their_stops(stops: Seq<FeedId>, id: Seq<char>, count: int)
    requires
        0 <= count <= stops.len() <= u32::MAX,
    ensures
        match raw_lookup(stops, id, count) {
            None => forall|i: int| 0 <= i < count ==> (#[trigger] stops[i]).id@ != id,
            Some(StopLookup::Unique(stop)) => stop < count && stops[stop as int].id@ == id
                && forall|i: int|
                0 <= i < count && i != stop ==> (#[trigger] stops[i]).id@ != id,
            Some(StopLookup::Ambiguous) => exists|i: int, j: int|
                0 <= i < j < count && (#[trigger] stops[i]).id@ == id && (
                #[trigger] stops[j]).id@ == id,
        },
    decreases count,
{
    if count > 0 {
        law_raw_ids_count_their_stops(stops, id, count - 1);
        if stops[count - 1].id@ == id {
            if let Some(StopLookup::Unique(stop)) = raw_lookup(stops, id, count - 1) {
                assert(stops[stop as int].id@ == id && stops[count - 1].id@ == id);
            }
        }
    }
}

/// A qualified id names the last stop that bears it.
pub proof fn law_qualified_ids_name_the_last(stops: Seq<FeedId>, text: Seq<char>, count: int)
    requires
        0 <= count <= stops.len() <= u32::MAX,
    ensures
        match qualified_lookup(stops, text, count) {
            None => forall|i: int|
                0 <= i < count ==> qualified_text((#[trigger] stops[i]).feed, stops[i].id@) != text,
            Some(stop) => stop < count && qualified_text(
                stops[stop as int].feed,
                stops[stop as int].id@,
            ) == text && forall|i: int|
                stop < i < count ==> qualified_text((#[trigger] stops[i]).feed, stops[i].id@)
                    != text,
        },
    decreases count,
{
    if count > 0 {
        law_qualified_ids_name_the_last(stops, text, count - 1);
    }
}

/// A resolved identifier is borne by its stop: as its qualified form, in a
/// merged network, or as its raw id, which no other stop then bears. An
/// identifier that just one stop bears, and none in its qualified form, always
/// resolves.
pub proof fn law_identifiers_resolve_to_their_bearer(
    stops: Seq<FeedId>,
    feed_count: u32,
    id: Seq<char>,
    bearer: int,
)
    requires
        stops.len() <= u32::MAX,
        0 <= bearer < stops.len(),
    ensures
        resolved_stop(stops, feed_count, id) matches Ok(stop) ==> stop < stops.len() && {
            ||| feed_count > 1 && qualified_text(stops[stop as int].feed, stops[stop as int].id@)
                == id
            ||| stops[stop as int].id@ == id && forall|i: int|
                0 <= i < stops.len() && i != stop ==> (#[trigger] stops[i]).id@ != id
        },
        stops[bearer].id@ == id && (forall|i: int|
            0 <= i < stops.len() && i != bearer ==> (#[trigger] stops[i]).id@ != id) && (forall|
            i: int,
        |
            0 <= i < stops.len() ==> qualified_text((#[trigger] stops[i]).feed, stops[i].id@) != id)
            ==> resolved_stop(stops, feed_count, id) == Ok::<u32, Seq<char>>(bearer as u32),
{
    law_raw_ids_count_their_stops(stops, id, stops.len() as int);
    law_qualified_ids_name_the_last(stops, id, stops.len() as int);
    if stops[bearer].id@ == id {
        assert(raw_lookup(stops, id, stops.len() as int) is Some);
    }
}

/// Identifiers resolve one by one, in order, or the first that fails decides.
pub proof fn law_identifiers_resolve_in_order(
    stops: Seq<FeedId>,
    feed_count: u32,
    stop_ids: Seq<String>,
    count: int,
)
    requires
        0 <= count <= stop_ids.len(),
    ensures
        match resolved_stops(stops, feed_count, stop_ids, count) {
            Ok(found) => found.len() == count && forall|i: int|
                0 <= i < count ==> resolved_stop(stops, feed_count, (#[trigger] stop_ids[i])@)
                    == Ok::<u32, Seq<char>>(found[i]),
            Err(text) => exists|i: int|
                0 <= i < count && resolved_stop(stops, feed_count, (#[trigger] stop_ids[i])@)
                    == Err::<u32, Seq<char>>(text) && forall|j: int|
                    0 <= j < i ==> resolved_stop(
                        stops,
                        feed_count,
                        (#[trigger] stop_ids[j])@,
                    ) is Ok,
        },
    decreases count,
{
    if count > 0 {
        law_identifiers_resolve_in_order(stops, feed_count, stop_ids, count - 1);
        if let Err(text) = resolved_stops(stops, feed_count, stop_ids, count - 1) {
            let i = choose|i: int|
                0 <= i < count - 1 && resolved_stop(stops, feed_count, (#[trigger] stop_ids[i])@)
                    == Err::<u32, Seq<char>>(text) && forall|j: int|
                    0 <= j < i ==> resolved_stop(
                        stops,
                        feed_count,
                        (#[trigger] stop_ids[j])@,
                    ) is Ok;
            assert(resolved_stop(stops, feed_count, stop_ids[i]@) == Err::<u32, Seq<char>>(text));
        } else {
            assert(resolved_stop(stops, feed_count, stop_ids[count - 1]@) == resolved_stop(
                stops,
                feed_count,
                stop_ids[count - 1]@,
            ));
        }
    }
}

/// A public trip id names the last trip that bears it.
pub proof fn law_trip_ids_name_the_last(
    trips: Seq<FeedId>,
    feed_count: u32,
    text: Seq<char>,
    count: int,
)
    requires
        0 <= count <= trips.len() <= u32::MAX,
    ensures
        match trip_lookup(trips, feed_count, text, count) {
            None => forall|i: int|
                0 <= i < count ==> public_text(
                    feed_count,
                    (#[trigger] trips[i]).feed,
                    trips[i].id@,
                ) != text,
            Some(trip) => trip < count && public_text(
                feed_count,
                trips[trip as int].feed,
                trips[trip as int].id@,
            ) == text && forall|i: int|
                trip < i < count ==> public_text(
                    feed_count,
                    (#[trigger] trips[i]).feed,
                    trips[i].id@,
                ) != text,
        },
    decreases count,
{
    if count > 0 {
        law_trip_ids_name_the_last(trips, feed_count, text, count - 1);
    }
}

/// A trip's factor is the one of the last table entry that names it, and no
/// number where none does.
pub proof fn law_factors_are_the_last_named(
    trips: Seq<FeedId>,
    feed_count: u32,
    factors: Seq<(String, u64)>,
    count: int,
    trip: u32,
    last: int,
)
    requires
        0 <= count <= factors.len(),
        trip < trips.len() <= u32::MAX,
        -1 <= last < count,
        last >= 0 ==> trip_lookup(trips, feed_count, factors[last].0@, trips.len() as int) == Some(
            trip,
        ),
        forall|k: int|
            last < k < count ==> trip_lookup(
                trips,
                feed_count,
                (#[trigger] factors[k]).0@,
                trips.len() as int,
            ) != Some(trip),
    ensures
        factor_vector(trips, feed_count, factors, count).len() == trips.len(),
        last >= 0 ==> factor_vector(trips, feed_count, factors, count)[trip as int]
            == factors[last].1,
        last < 0 ==> factor_vector(trips, feed_count, factors, count)[trip as int]
            == 0x7FF8_0000_0000_0000,
    decreases count,
{
    lemma_factor_vector_len(trips, feed_count, factors, count);
    if count > 0 {
        lemma_factor_vector_len(trips, feed_count, factors, count - 1);
        law_trip_ids_name_the_last(
            trips,
            feed_count,
            factors[count - 1].0@,
            trips.len() as int,
        );
        if last < count - 1 {
            assert(trip_lookup(trips, feed_count, factors[count - 1].0@, trips.len() as int)
                != Some(trip));
            law_factors_are_the_last_named(trips, feed_count, factors, count - 1, trip, last);
        }
    }
}

proof fn lemma_factor_vector_len(
    trips: Seq<FeedId>,
    feed_count: u32,
    factors: Seq<(String, u64)>,
    count: int,
)
    requires
        trips.len() <= u32::MAX,
    ensures
        factor_vector(trips, feed_count, factors, count).len() == trips.len(),
    decreases count,
{
    if count > 0 {
        lemma_factor_vector_len(trips, feed_count, factors, count - 1);
        law_trip_ids_name_the_last(
            trips,
            feed_count,
            factors[count - 1].0@,
            trips.len() as int,
        );
    }
}

/// A route's penalty is the last that names it, at most one below a ban, and
/// nothing where none does.
pub proof fn law_penalties_are_the_last_named(
    penalties: Seq<(String, u64)>,
    id: Seq<char>,
    count: int,
    last: int,
)
    requires
        0 <= count <= penalties.len(),
        -1 <= last < count,
        last >= 0 ==> penalties[last].0@ == id,
        forall|k: int| last < k < count ==> (#[trigger] penalties[k]).0@ != id,
    ensures
        last < 0 ==> penalty_for(penalties, id, count) == 0,
        last >= 0 && penalties[last].1 < u32::MAX ==> penalty_for(penalties, id, count)
            == penalties[last].1,
        last >= 0 && penalties[last].1 >= u32::MAX ==> penalty_for(penalties, id, count)
            == u32::MAX - 1,
    decreases count,
{
    if last < count - 1 {
        assert(penalties[count - 1].0@ != id);
        law_penalties_are_the_last_named(penalties, id, count - 1, last);
    }
}

/// A banned route bears the ban whatever its penalty; no penalty is a ban.
pub proof fn law_bans_stand_above_penalties(
    banned: Seq<String>,
    penalties: Seq<(String, u64)>,
    id: Seq<char>,
    at: int,
)
    ensures
        0 <= at < banned.len() && banned[at]@ == id ==> route_penalty(banned, penalties, id)
            == u32::MAX,
        route_penalty(banned, penalties, id) == u32::MAX ==> exists|i: int|
            0 <= i < banned.len() && (#[trigger] banned[i])@ == id,
        (forall|i: int| 0 <= i < banned.len() ==> (#[trigger] banned[i])@ != id) ==> route_penalty(
            banned,
            penalties,
            id,
        ) == penalty_for(penalties, id, penalties.len() as int),
{
    lemma_penalty_below_ban(penalties, id, penalties.len() as int);
    if is_listed(banned, id) {
        let i = choose|i: int| 0 <= i < banned.len() && (#[trigger] banned[i])@ == id;
        assert(banned[i]@ == id);
    }
    if 0 <= at < banned.len() {
        assert(banned[at]@ == banned[at]@);
    }
}

proof fn lemma_penalty_below_ban(penalties: Seq<(String, u64)>, id: Seq<char>, count: int)
    ensures
        penalty_for(penalties, id, count) < u32::MAX,
    decreases count,
{
    if count > 0 {
        lemma_penalty_below_ban(penalties, id, count - 1);
    }
}

/// A route keeps the agency it names. One that names none has its feed's only
/// agency, and no agency where the feed has none or several.
pub proof fn law_routes_have_the_only_agency(
    agencies: Seq<Agency>,
    feed: u32,
    own: Seq<char>,
    first: int,
    second: int,
)
    requires
        0 <= first < agencies.len(),
        0 <= second < agencies.len(),
        agencies[first].feed == feed,
    ensures
        route_agency(agencies, feed, Some(own)) == Some(own),
        first != second && agencies[second].feed == feed ==> route_agency(agencies, feed, None)
            is None,
        (forall|a: int| 0 <= a < agencies.len() && a != first ==> (#[trigger] agencies[a]).feed
            != feed) ==> route_agency(agencies, feed, None) == text_of(agencies[first].id),
{
    let count = agencies.len() as int;
    if first != second && agencies[second].feed == feed {
        if first < second {
            lemma_agencies_in(agencies, feed, count, first, second);
        } else {
            lemma_agencies_in(agencies, feed, count, second, first);
        }
    }
    if forall|a: int|
        0 <= a < agencies.len() && a != first ==> (#[trigger] agencies[a]).feed != feed {
        lemma_only_agency(agencies, feed, count, first);
    }
}

/// A feed without agencies gives its routes none.
pub proof fn law_feeds_without_agencies(agencies: Seq<Agency>, feed: u32)
    requires
        forall|a: int| 0 <= a < agencies.len() ==> (#[trigger] agencies[a]).feed != feed,
    ensures
        route_agency(agencies, feed, None) is None,
{
    lemma_no_agency(agencies, feed, agencies.len() as int);
}

proof fn lemma_no_agency(agencies: Seq<Agency>, feed: u32, count: int)
    requires
        0 <= count <= agencies.len(),
        forall|a: int| 0 <= a < count ==> (#[trigger] agencies[a]).feed != feed,
    ensures
        agencies_in(agencies, feed, count) == 0,
    decreases count,
{
    if count > 0 {
        assert(agencies[count - 1].feed != feed);
        lemma_no_agency(agencies, feed, count - 1);
    }
}

proof fn lemma_only_agency(agencies: Seq<Agency>, feed: u32, count: int, only: int)
    requires
        0 <= only < count <= agencies.len(),
        agencies[only].feed == feed,
        forall|a: int| 0 <= a < count && a != only ==> (#[trigger] agencies[a]).feed != feed,
    ensures
        agencies_in(agencies, feed, count) == 1,
        last_agency(agencies, feed, count) == text_of(agencies[only].id),
    decreases count,
{
    if only == count - 1 {
        lemma_no_agency(agencies, feed, count - 1);
    } else {
        assert(agencies[count - 1].feed != feed);
        lemma_only_agency(agencies, feed, count - 1, only);
    }
}

proof fn lemma_agencies_in(
    agencies: Seq<Agency>,
    feed: u32,
    count: int,
    first: int,
    second: int,
)
    requires
        0 <= first < second < agencies.len(),
        count <= agencies.len(),
        agencies[first].feed == feed,
        agencies[second].feed == feed,
    ensures
        first < count ==> agencies_in(agencies, feed, count) >= 1,
        second < count ==> agencies_in(agencies, feed, count) >= 2,
    decreases count,
{
    if count > 0 {
        lemma_agencies_in(agencies, feed, count - 1, first, second);
    }
}

/// A refusal is for a fault of its own sort, in the fault's own words.
pub proof fn law_refusals_keep_the_sort(refusal: Refusal, text: Seq<char>)
    ensures
        refused_for(refusal, Fault::Key(text)) <==> (refusal matches Refusal::Key(error)
            && error.message@ == text),
        refused_for(refusal, Fault::Value(text)) <==> (refusal matches Refusal::Value(error)
            && error.message@ == text),
{
}

} // verus!
