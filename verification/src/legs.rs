//! How the legs of a journey are reported: public ids, times, distances and
//! whether a leg is drawn.

use crate::ids::{public_id, public_text, text_of, FeedId};
use crate::journeys::{clamped, Leg};
use crate::links::WalkedStop;
use crate::options::{provenance_name, tier_name, DistanceProvenance};
use vstd::prelude::*;

verus! {

/// A trip of a feed and the route it runs on.
pub struct TripId {
    pub feed: u32,
    pub id: String,
    pub route: u32,
}

/// A route of a feed.
pub struct RouteId {
    pub feed: u32,
    pub id: String,
    pub short_name: Option<String>,
}

/// The identifiers that legs are reported by.
pub struct NetworkIds {
    pub feed_count: u32,
    pub stops: Vec<FeedId>,
    pub trips: Vec<TripId>,
    pub routes: Vec<RouteId>,
}

impl NetworkIds {
    /// Every trip runs on a route of the network.
    pub open spec fn wf(&self) -> bool {
        forall|t: int| 0 <= t < self.trips@.len() ==> (#[trigger] self.trips@[t]).route
            < self.routes@.len()
    }

    pub open spec fn stop_text(&self, stop: u32) -> Seq<char> {
        let stop = self.stops@[stop as int];
        public_text(self.feed_count, stop.feed, stop.id@)
    }

    pub open spec fn trip_text(&self, trip: u32) -> Seq<char> {
        let trip = self.trips@[trip as int];
        public_text(self.feed_count, trip.feed, trip.id@)
    }

    pub open spec fn route_of(&self, trip: u32) -> RouteId {
        self.routes@[self.trips@[trip as int].route as int]
    }

    pub open spec fn route_text(&self, trip: u32) -> Seq<char> {
        let route = self.route_of(trip);
        public_text(self.feed_count, route.feed, route.id@)
    }

    /// The public form of a stop's identifier.
    pub fn public_stop_id(&self, stop: u32) -> (text: String)
        requires
            stop < self.stops@.len(),
        ensures
            text@ == self.stop_text(stop),
    {
        let stop = &self.stops[stop as usize];
        public_id(self.feed_count, stop.feed, stop.id.as_str())
    }
}

/// The walked meters last listed for a stop.
pub open spec fn walked_meters(walks: Seq<WalkedStop>, stop: u32, count: int) -> Option<u64>
    decreases count,
{
    if count <= 0 {
        None
    } else if walks[count - 1].stop == stop {
        Some(walks[count - 1].meters)
    } else {
        walked_meters(walks, stop, count - 1)
    }
}

fn find_meters(walks: &Vec<WalkedStop>, stop: u32) -> (meters: Option<u64>)
    ensures
        meters == walked_meters(walks@, stop, walks@.len() as int),
{
    let mut meters: Option<u64> = None;
    let mut index: usize = 0;
    while index < walks.len()
        invariant
            index <= walks@.len(),
            meters == walked_meters(walks@, stop, index as int),
        decreases walks.len() - index,
    {
        if walks[index].stop == stop {
            meters = Some(walks[index].meters);
        }
        index += 1;
    }
    meters
}

/// The walked meters between two stops: those of the first transfer.
pub open spec fn transfer_meters(edges: Seq<(u32, u64)>, to: u32, from: int) -> Option<u64>
    decreases edges.len() - from,
{
    if from >= edges.len() {
        None
    } else if edges[from].0 == to {
        Some(edges[from].1)
    } else {
        transfer_meters(edges, to, from + 1)
    }
}

fn find_transfer(edges: &Vec<(u32, u64)>, to: u32) -> (meters: Option<u64>)
    ensures
        meters == transfer_meters(edges@, to, 0),
{
    let mut index: usize = 0;
    while index < edges.len()
        invariant
            index <= edges@.len(),
            transfer_meters(edges@, to, 0) == transfer_meters(edges@, to, index as int),
        decreases edges.len() - index,
    {
        if edges[index].0 == to {
            return Some(edges[index].1);
        }
        index += 1;
    }
    None
}

/// The walk lengths of a coordinate query, by the stop each link enters the
/// network through.
pub struct WalkMaps {
    pub access: Vec<WalkedStop>,
    pub egress: Vec<WalkedStop>,
}

/// What a leg is reported with. Distances are doubles' bits; `drawn` says
/// whether a geometry is wanted and can be had from the query itself.
pub struct LegEntry {
    pub kind: &'static str,
    pub from_stop: Option<String>,
    pub to_stop: Option<String>,
    pub trip_id: Option<String>,
    pub route_id: Option<String>,
    pub route_short_name: Option<String>,
    pub departure: u32,
    pub arrival: u32,
    pub distance: Option<u64>,
    pub distance_provenance: Option<&'static str>,
    pub drawn: bool,
}

/// A reported leg as plain values.
#[verifier::ext_equal]
pub struct LegModel {
    pub kind: Seq<char>,
    pub from_stop: Option<Seq<char>>,
    pub to_stop: Option<Seq<char>>,
    pub trip_id: Option<Seq<char>>,
    pub route_id: Option<Seq<char>>,
    pub route_short_name: Option<Seq<char>>,
    pub departure: u32,
    pub arrival: u32,
    pub distance: Option<u64>,
    pub distance_provenance: Option<Seq<char>>,
    pub drawn: bool,
}

impl View for LegEntry {
    type V = LegModel;

    open spec fn view(&self) -> LegModel {
        LegModel {
            kind: self.kind@,
            from_stop: text_of(self.from_stop),
            to_stop: text_of(self.to_stop),
            trip_id: text_of(self.trip_id),
            route_id: text_of(self.route_id),
            route_short_name: text_of(self.route_short_name),
            departure: self.departure,
            arrival: self.arrival,
            distance: self.distance,
            distance_provenance: match self.distance_provenance {
                Some(name) => Some(name@),
                None => None,
            },
            drawn: self.drawn,
        }
    }
}

/// A street leg: no vehicle, no provenance.
pub open spec fn street_leg(
    kind: Seq<char>,
    from_stop: Option<Seq<char>>,
    to_stop: Option<Seq<char>>,
    departure: u32,
    arrival: u32,
    distance: Option<u64>,
    drawn: bool,
) -> LegModel {
    LegModel {
        kind,
        from_stop,
        to_stop,
        trip_id: None,
        route_id: None,
        route_short_name: None,
        departure,
        arrival,
        distance,
        distance_provenance: None,
        drawn,
    }
}

/// What of a query the legs are reported against: its walk lengths and
/// whether it has end points, where it came from coordinates; the transfers
/// the route relaxed out of the leg's first stop; a ride's measured meters;
/// and which geometries are installed and wanted.
pub struct LegContext<'a> {
    pub walks: Option<&'a WalkMaps>,
    pub has_ends: bool,
    pub transfers: &'a Vec<(u32, u64)>,
    pub measured: Option<(u64, DistanceProvenance)>,
    pub has_leg_geometry: bool,
    pub geometries: bool,
}

/// How a leg is reported. Access and egress distances are the query's own
/// walk lengths; a transfer's is the one the route relaxed; a ride's is
/// measured along its trip.
pub open spec fn reported(leg: Leg, ids: NetworkIds, context: LegContext) -> LegModel {
    match leg {
        Leg::Access { to_stop, departure, arrival } => street_leg(
            "access"@,
            None,
            Some(ids.stop_text(to_stop)),
            departure,
            arrival,
            match context.walks {
                Some(walks) => walked_meters(walks.access@, to_stop, walks.access@.len() as int),
                None => None,
            },
            context.geometries && context.has_ends,
        ),
        Leg::Transit { trip, board_stop, alight_stop, board_time, alight_time, .. } => LegModel {
            kind: "transit"@,
            from_stop: Some(ids.stop_text(board_stop)),
            to_stop: Some(ids.stop_text(alight_stop)),
            trip_id: Some(ids.trip_text(trip)),
            route_id: Some(ids.route_text(trip)),
            route_short_name: text_of(ids.route_of(trip).short_name),
            departure: board_time,
            arrival: alight_time,
            distance: match context.measured {
                Some((meters, _)) => Some(meters),
                None => None,
            },
            distance_provenance: match context.measured {
                Some((_, tier)) => Some(tier_name(tier)),
                None => None,
            },
            drawn: context.geometries && context.has_leg_geometry,
        },
        Leg::Transfer { from_stop, to_stop, departure, arrival } => street_leg(
            "transfer"@,
            Some(ids.stop_text(from_stop)),
            Some(ids.stop_text(to_stop)),
            departure,
            arrival,
            transfer_meters(context.transfers@, to_stop, 0),
            context.geometries,
        ),
        Leg::Egress { from_stop, departure, arrival } => street_leg(
            "egress"@,
            Some(ids.stop_text(from_stop)),
            None,
            departure,
            arrival,
            match context.walks {
                Some(walks) => walked_meters(walks.egress@, from_stop, walks.egress@.len() as int),
                None => None,
            },
            context.geometries && context.has_ends,
        ),
    }
}

/// Whether a leg's stops and trip are the network's.
pub open spec fn leg_fits(leg: Leg, ids: NetworkIds) -> bool {
    match leg {
        Leg::Access { to_stop, .. } => to_stop < ids.stops@.len(),
        Leg::Transit { trip, board_stop, alight_stop, .. } => trip < ids.trips@.len() && board_stop
            < ids.stops@.len() && alight_stop < ids.stops@.len(),
        Leg::Transfer { from_stop, to_stop, .. } => from_stop < ids.stops@.len() && to_stop
            < ids.stops@.len(),
        Leg::Egress { from_stop, .. } => from_stop < ids.stops@.len(),
    }
}

fn street_entry(
    kind: &'static str,
    from_stop: Option<String>,
    to_stop: Option<String>,
    departure: u32,
    arrival: u32,
    distance: Option<u64>,
    drawn: bool,
) -> (entry: LegEntry)
    ensures
        entry@ == street_leg(
            kind@,
            text_of(from_stop),
            text_of(to_stop),
            departure,
            arrival,
            distance,
            drawn,
        ),
{
    LegEntry {
        kind,
        from_stop,
        to_stop,
        trip_id: None,
        route_id: None,
        route_short_name: None,
        departure,
        arrival,
        distance,
        distance_provenance: None,
        drawn,
    }
}

fn copy_text(text: &Option<String>) -> (copy: Option<String>)
    ensures
        text_of(copy) == text_of(*text),
{
    match text {
        Some(text) => Some(text.as_str().to_owned()),
        None => None,
    }
}

/// Reports one leg.
pub fn leg_entry(leg: &Leg, ids: &NetworkIds, context: &LegContext) -> (entry: LegEntry)
    requires
        ids.wf(),
        leg_fits(*leg, *ids),
    ensures
        entry@ == reported(*leg, *ids, *context),
{
    match *leg {
        Leg::Access { to_stop, departure, arrival } => {
            let distance: Option<u64> = match context.walks {
                Some(walks) => find_meters(&walks.access, to_stop),
                None => None,
            };
            street_entry(
                "access",
                None,
                Some(ids.public_stop_id(to_stop)),
                departure,
                arrival,
                distance,
                context.geometries && context.has_ends,
            )
        },
        Leg::Transit { trip, board_stop, alight_stop, board_time, alight_time, .. } => {
            assert(ids.trips@[trip as int].route < ids.routes@.len());
            let source = &ids.trips[trip as usize];
            let route = &ids.routes[source.route as usize];
            let (distance, distance_provenance): (Option<u64>, Option<&'static str>) =
                match context.measured {
                Some((meters, tier)) => (Some(meters), Some(provenance_name(tier))),
                None => (None, None),
            };
            LegEntry {
                kind: "transit",
                from_stop: Some(ids.public_stop_id(board_stop)),
                to_stop: Some(ids.public_stop_id(alight_stop)),
                trip_id: Some(public_id(ids.feed_count, source.feed, source.id.as_str())),
                route_id: Some(public_id(ids.feed_count, route.feed, route.id.as_str())),
                route_short_name: copy_text(&route.short_name),
                departure: board_time,
                arrival: alight_time,
                distance,
                distance_provenance,
                drawn: context.geometries && context.has_leg_geometry,
            }
        },
        Leg::Transfer { from_stop, to_stop, departure, arrival } => street_entry(
            "transfer",
            Some(ids.public_stop_id(from_stop)),
            Some(ids.public_stop_id(to_stop)),
            departure,
            arrival,
            find_transfer(context.transfers, to_stop),
            context.geometries,
        ),
        Leg::Egress { from_stop, departure, arrival } => {
            let distance: Option<u64> = match context.walks {
                Some(walks) => find_meters(&walks.egress, from_stop),
                None => None,
            };
            street_entry(
                "egress",
                Some(ids.public_stop_id(from_stop)),
                None,
                departure,
                arrival,
                distance,
                context.geometries && context.has_ends,
            )
        },
    }
}

/// The one leg of a walking-only journey: it arrives once it was walked, at
/// the latest at the end of the clock.
pub open spec fn walk_leg(departure: u32, seconds: u32, meters: u64, geometries: bool) -> LegModel {
    street_leg(
        "walk"@,
        None,
        None,
        departure,
        clamped(departure + seconds),
        Some(meters),
        geometries,
    )
}

/// Reports a walking-only journey as its one leg.
pub fn walk_entry(departure: u32, seconds: u32, meters: u64, geometries: bool) -> (entry: LegEntry)
    ensures
        entry@ == walk_leg(departure, seconds, meters, geometries),
{
    let arrival: u32 = departure.saturating_add(seconds);
    street_entry("walk", None, None, departure, arrival, Some(meters), geometries)
}

/// A transfer's own edge out of a stop's edges: the first to a stop.
pub open spec fn edge_to(edges: Seq<(u32, u32, u64)>, to: u32, from: int) -> Option<(u32, u64)>
    decreases edges.len() - from,
{
    if from >= edges.len() {
        None
    } else if edges[from].0 == to {
        Some((edges[from].1, edges[from].2))
    } else {
        edge_to(edges, to, from + 1)
    }
}

/// The seconds and meters of the transfer to a stop.
pub fn transfer_leg(edges: &Vec<(u32, u32, u64)>, to: u32) -> (leg: Option<(u32, u64)>)
    ensures
        leg == edge_to(edges@, to, 0),
{
    let mut index: usize = 0;
    while index < edges.len()
        invariant
            index <= edges@.len(),
            edge_to(edges@, to, 0) == edge_to(edges@, to, index as int),
        decreases edges.len() - index,
    {
        if edges[index].0 == to {
            return Some((edges[index].1, edges[index].2));
        }
        index += 1;
    }
    None
}

/// The walked meters to a stop are those last listed for it, and there are
/// none where it is not listed.
pub proof fn law_walked_meters_are_the_last_listed(
    walks: Seq<WalkedStop>,
    stop: u32,
    count: int,
    last: int,
)
    requires
        0 <= count <= walks.len(),
        -1 <= last < count,
        last >= 0 ==> walks[last].stop == stop,
        forall|k: int| last < k < count ==> (#[trigger] walks[k]).stop != stop,
    ensures
        last >= 0 ==> walked_meters(walks, stop, count) == Some(walks[last].meters),
        last < 0 ==> walked_meters(walks, stop, count) is None,
    decreases count,
{
    if last < count - 1 {
        assert(walks[count - 1].stop != stop);
        law_walked_meters_are_the_last_listed(walks, stop, count - 1, last);
    }
}

/// The meters and seconds of a transfer are those of the first edge to its
/// stop, and there are none where no edge leads there.
pub proof fn law_transfers_take_the_first_edge(
    edges: Seq<(u32, u32, u64)>,
    lengths: Seq<(u32, u64)>,
    to: u32,
    at: int,
)
    requires
        edges.len() == lengths.len(),
        forall|k: int|
            0 <= k < edges.len() ==> (#[trigger] edges[k]).0 == lengths[k].0 && edges[k].2
                == lengths[k].1,
        0 <= at <= edges.len(),
        forall|k: int| 0 <= k < at ==> (#[trigger] edges[k]).0 != to,
        at < edges.len() ==> edges[at].0 == to,
    ensures
        at < edges.len() ==> edge_to(edges, to, 0) == Some((edges[at].1, edges[at].2))
            && transfer_meters(lengths, to, 0) == Some(edges[at].2),
        at == edges.len() ==> edge_to(edges, to, 0) is None && transfer_meters(lengths, to, 0)
            is None,
{
    lemma_first_edge(edges, lengths, to, 0, at);
}

proof fn lemma_first_edge(
    edges: Seq<(u32, u32, u64)>,
    lengths: Seq<(u32, u64)>,
    to: u32,
    from: int,
    at: int,
)
    requires
        edges.len() == lengths.len(),
        forall|k: int|
            0 <= k < edges.len() ==> (#[trigger] edges[k]).0 == lengths[k].0 && edges[k].2
                == lengths[k].1,
        0 <= from <= at <= edges.len(),
        forall|k: int| from <= k < at ==> (#[trigger] edges[k]).0 != to,
        at < edges.len() ==> edges[at].0 == to,
    ensures
        at < edges.len() ==> edge_to(edges, to, from) == Some((edges[at].1, edges[at].2))
            && transfer_meters(lengths, to, from) == Some(edges[at].2),
        at == edges.len() ==> edge_to(edges, to, from) is None && transfer_meters(lengths, to, from)
            is None,
    decreases at - from,
{
    if from < edges.len() {
        assert(edges[from].0 == lengths[from].0 && edges[from].2 == lengths[from].1);
    }
    if from < at {
        lemma_first_edge(edges, lengths, to, from + 1, at);
    }
}

/// A reported leg keeps the leg's own times and stops. A ride names its trip
/// and route and says how its distance was measured; a street leg names none
/// and is drawn where geometries are asked for and its ends are known.
pub proof fn law_reported_legs_keep_their_own(leg: Leg, ids: NetworkIds, context: LegContext)
    ensures
        ({
            let told = reported(leg, ids, context);
            &&& !context.geometries ==> !told.drawn
            &&& match leg {
                Leg::Access { to_stop, departure, arrival } => told.departure == departure
                    && told.arrival == arrival && told.from_stop is None && told.to_stop == Some(
                    ids.stop_text(to_stop),
                ) && told.trip_id is None && told.route_id is None && told.distance_provenance
                    is None && told.drawn == (context.geometries && context.has_ends) && (
                context.walks is None ==> told.distance is None) && (context.walks matches Some(
                    walks,
                ) ==> told.distance == walked_meters(
                    walks.access@,
                    to_stop,
                    walks.access@.len() as int,
                )),
                Leg::Transit { trip, board_stop, alight_stop, board_time, alight_time, .. } =>
                told.departure == board_time && told.arrival == alight_time && told.from_stop
                    == Some(ids.stop_text(board_stop)) && told.to_stop == Some(
                    ids.stop_text(alight_stop),
                ) && told.trip_id == Some(ids.trip_text(trip)) && told.route_id == Some(
                    ids.route_text(trip),
                ) && told.route_short_name == text_of(
                    ids.routes@[ids.trips@[trip as int].route as int].short_name,
                ) && told.drawn == (context.geometries && context.has_leg_geometry) && (
                context.measured is None ==> told.distance is None && told.distance_provenance
                    is None) && (context.measured matches Some((meters, tier)) ==> told.distance
                    == Some(meters) && told.distance_provenance == Some(tier_name(tier))),
                Leg::Transfer { from_stop, to_stop, departure, arrival } => told.departure
                    == departure && told.arrival == arrival && told.from_stop == Some(
                    ids.stop_text(from_stop),
                ) && told.to_stop == Some(ids.stop_text(to_stop)) && told.trip_id is None
                    && told.route_id is None && told.distance_provenance is None && told.drawn
                    == context.geometries && told.distance == transfer_meters(
                    context.transfers@,
                    to_stop,
                    0,
                ),
                Leg::Egress { from_stop, departure, arrival } => told.departure == departure
                    && told.arrival == arrival && told.from_stop == Some(ids.stop_text(from_stop))
                    && told.to_stop is None && told.trip_id is None && told.route_id is None
                    && told.distance_provenance is None && told.drawn == (context.geometries
                    && context.has_ends) && (context.walks is None ==> told.distance is None) && (
                context.walks matches Some(walks) ==> told.distance == walked_meters(
                    walks.egress@,
                    from_stop,
                    walks.egress@.len() as int,
                )),
            }
        }),
{
}

/// A walking-only journey is one leg of its own meters, which arrives once it
/// was walked, at the latest at the end of the clock.
pub proof fn law_walks_arrive_once_walked(
    departure: u32,
    seconds: u32,
    meters: u64,
    geometries: bool,
)
    ensures
        ({
            let leg = walk_leg(departure, seconds, meters, geometries);
            &&& leg.departure == departure
            &&& departure + seconds <= u32::MAX ==> leg.arrival == departure + seconds
            &&& departure + seconds > u32::MAX ==> leg.arrival == u32::MAX
            &&& leg.distance == Some(meters)
            &&& leg.drawn == geometries
            &&& leg.from_stop is None && leg.to_stop is None && leg.trip_id is None
        }),
{
}

} // verus!
