//! What a network says of itself: stops, trips, routes and counts, and the
//! resolution of listed stops.

use crate::ids::{
    law_routes_have_the_only_agency, public_agency_id, public_id, public_text, resolved_stop,
    route_agency, text_of, Agency, KeyError, StopIndex,
};
use crate::legs::NetworkIds;
use crate::links::{bare_entries, matrix_street_egress, street_entries, walks_in_range, WalkedStop};
use crate::options::{
    provenance_name, route_type_code, tier_name, type_code, DistanceProvenance, RouteType,
};
use crate::text::{decimal, decimal_text, joined, joined_text};
use vstd::prelude::*;

verus! {

pub open spec fn quarantine_text(trips: nat) -> Seq<char> {
    joined_text(
        seq![
            "quarantined "@,
            decimal_text(trips),
            " trip(s) with data-quality problems; routing excludes them"@,
        ],
    )
}

pub open spec fn interpolation_text(trips: nat) -> Seq<char> {
    joined_text(
        seq!["interpolated blank stop times on "@, decimal_text(trips), " trip(s)"@],
    )
}

/// What a build warns of, in order.
pub open spec fn warning_texts(quarantined: usize, interpolated: usize) -> Seq<Seq<char>> {
    (if quarantined > 0 {
        seq![quarantine_text(quarantined as nat)]
    } else {
        Seq::empty()
    }) + (if interpolated > 0 {
        seq![interpolation_text(interpolated as nat)]
    } else {
        Seq::empty()
    })
}

/// The warnings of a build: trips left out, and trips whose blank stop times
/// were filled in.
pub fn build_warnings(quarantined: usize, interpolated: usize) -> (warnings: Vec<String>)
    ensures
        warnings@.map_values(|text: String| text@) == warning_texts(quarantined, interpolated),
{
    let mut warnings: Vec<String> = Vec::new();
    if quarantined > 0 {
        let number = decimal(quarantined as u64);
        let pieces: [&str; 3] = [
            "quarantined ",
            number.as_str(),
            " trip(s) with data-quality problems; routing excludes them",
        ];
        let text = joined(&pieces);
        assert(pieces@.map_values(|piece: &str| piece@) =~= seq![
            "quarantined "@,
            decimal_text(quarantined as nat),
            " trip(s) with data-quality problems; routing excludes them"@,
        ]);
        warnings.push(text);
    }
    if interpolated > 0 {
        let number = decimal(interpolated as u64);
        let pieces: [&str; 3] = [
            "interpolated blank stop times on ",
            number.as_str(),
            " trip(s)",
        ];
        let text = joined(&pieces);
        assert(pieces@.map_values(|piece: &str| piece@) =~= seq![
            "interpolated blank stop times on "@,
            decimal_text(interpolated as nat),
            " trip(s)"@,
        ]);
        warnings.push(text);
    }
    assert(warnings@.map_values(|text: String| text@) =~= warning_texts(quarantined, interpolated));
    warnings
}

/// The stops by their public ids.
pub fn stop_ids(ids: &NetworkIds) -> (texts: Vec<String>)
    requires
        ids.stops@.len() <= u32::MAX,
    ensures
        texts@.len() == ids.stops@.len(),
        forall|s: int| 0 <= s < texts@.len() ==> (#[trigger] texts@[s])@ == ids.stop_text(s as u32),
{
    let mut texts: Vec<String> = Vec::new();
    let mut stop: usize = 0;
    while stop < ids.stops.len()
        invariant
            stop <= ids.stops@.len() <= u32::MAX,
            texts@.len() == stop,
            forall|s: int|
                0 <= s < texts@.len() ==> (#[trigger] texts@[s])@ == ids.stop_text(s as u32),
        decreases ids.stops.len() - stop,
    {
        texts.push(ids.public_stop_id(stop as u32));
        stop += 1;
    }
    texts
}

/// The trips by their public ids, each with its route's.
pub fn trips(ids: &NetworkIds) -> (listed: Vec<(String, String)>)
    requires
        ids.wf(),
        ids.trips@.len() <= u32::MAX,
    ensures
        listed@.len() == ids.trips@.len(),
        forall|t: int|
            0 <= t < listed@.len() ==> (#[trigger] listed@[t]).0@ == ids.trip_text(t as u32)
                && listed@[t].1@ == ids.route_text(t as u32),
{
    let mut listed: Vec<(String, String)> = Vec::new();
    let mut at: usize = 0;
    while at < ids.trips.len()
        invariant
            ids.wf(),
            at <= ids.trips@.len() <= u32::MAX,
            listed@.len() == at,
            forall|t: int|
                0 <= t < listed@.len() ==> (#[trigger] listed@[t]).0@ == ids.trip_text(t as u32)
                    && listed@[t].1@ == ids.route_text(t as u32),
        decreases ids.trips.len() - at,
    {
        let trip = &ids.trips[at];
        assert(ids.trips@[at as int].route < ids.routes@.len());
        let route = &ids.routes[trip.route as usize];
        listed.push(
            (
                public_id(ids.feed_count, trip.feed, trip.id.as_str()),
                public_id(ids.feed_count, route.feed, route.id.as_str()),
            ),
        );
        at += 1;
    }
    listed
}

/// A route as a feed gives it.
pub struct FeedRoute {
    pub feed: u32,
    pub id: String,
    pub agency_id: Option<String>,
    pub route_type: RouteType,
}

/// A route as it is listed.
pub struct ListedRoute {
    pub id: String,
    pub agency: Option<String>,
    pub route_type: i32,
}

/// Whether a listed route reports a feed's: its public id, its agency (its
/// own, or the feed's only one) and its numeric type.
pub open spec fn reports_route(
    listed: ListedRoute,
    route: FeedRoute,
    agencies: Seq<Agency>,
    feed_count: u32,
) -> bool {
    &&& listed.id@ == public_text(feed_count, route.feed, route.id@)
    &&& text_of(listed.agency) == match route_agency(agencies, route.feed, text_of(route.agency_id)) {
        Some(id) => Some(public_text(feed_count, route.feed, id)),
        None => None,
    }
    &&& listed.route_type == type_code(route.route_type)
}

/// The routes of a network.
pub fn routes(feed_routes: &Vec<FeedRoute>, agencies: &Vec<Agency>, feed_count: u32) -> (listed: Vec<
    ListedRoute,
>)
    ensures
        listed@.len() == feed_routes@.len(),
        forall|r: int|
            0 <= r < listed@.len() ==> reports_route(
                #[trigger] listed@[r],
                feed_routes@[r],
                agencies@,
                feed_count,
            ),
{
    let mut listed: Vec<ListedRoute> = Vec::new();
    let mut at: usize = 0;
    while at < feed_routes.len()
        invariant
            at <= feed_routes@.len(),
            listed@.len() == at,
            forall|r: int|
                0 <= r < listed@.len() ==> reports_route(
                    #[trigger] listed@[r],
                    feed_routes@[r],
                    agencies@,
                    feed_count,
                ),
        decreases feed_routes.len() - at,
    {
        let route = &feed_routes[at];
        listed.push(
            ListedRoute {
                id: public_id(feed_count, route.feed, route.id.as_str()),
                agency: public_agency_id(agencies, feed_count, route.feed, &route.agency_id),
                route_type: route_type_code(&route.route_type),
            },
        );
        at += 1;
    }
    listed
}

/// How many of the first `count` trips have a provenance.
pub open spec fn tier_count(
    tiers: Seq<DistanceProvenance>,
    tier: DistanceProvenance,
    count: int,
) -> nat
    decreases count,
{
    if count <= 0 {
        0
    } else {
        tier_count(tiers, tier, count - 1) + if tiers[count - 1] == tier {
            1nat
        } else {
            0
        }
    }
}

fn count_tier(tiers: &Vec<DistanceProvenance>, tier: DistanceProvenance) -> (trips: usize)
    ensures
        trips == tier_count(tiers@, tier, tiers@.len() as int),
{
    let mut trips: usize = 0;
    let mut index: usize = 0;
    while index < tiers.len()
        invariant
            index <= tiers@.len(),
            trips <= index,
            trips == tier_count(tiers@, tier, index as int),
        decreases tiers.len() - index,
    {
        if tiers[index] == tier {
            trips += 1;
        }
        index += 1;
    }
    trips
}

/// The provenances, best first.
pub open spec fn all_tiers() -> Seq<DistanceProvenance> {
    seq![
        DistanceProvenance::ShapeDist,
        DistanceProvenance::ShapeLinRef,
        DistanceProvenance::OsmRelation,
        DistanceProvenance::MapMatched,
        DistanceProvenance::CrowFly,
    ]
}

/// The counts of the first `count` provenances, those that occur.
pub open spec fn counted_tiers(tiers: Seq<DistanceProvenance>, count: int) -> Seq<(Seq<char>, nat)>
    decreases count,
{
    if count <= 0 {
        Seq::empty()
    } else {
        let tier = all_tiers()[count - 1];
        let trips = tier_count(tiers, tier, tiers.len() as int);
        if trips > 0 {
            counted_tiers(tiers, count - 1).push((tier_name(tier), trips))
        } else {
            counted_tiers(tiers, count - 1)
        }
    }
}

/// How many trips have each provenance that occurs.
pub fn distance_provenance_counts(tiers: &Vec<DistanceProvenance>) -> (counts: Vec<
    (&'static str, usize),
>)
    ensures
        counts@.map_values(|entry: (&'static str, usize)| (entry.0@, entry.1 as nat))
            == counted_tiers(tiers@, 5),
{
    let ghost seen = |entry: (&'static str, usize)| (entry.0@, entry.1 as nat);
    let order: [DistanceProvenance; 5] = [
        DistanceProvenance::ShapeDist,
        DistanceProvenance::ShapeLinRef,
        DistanceProvenance::OsmRelation,
        DistanceProvenance::MapMatched,
        DistanceProvenance::CrowFly,
    ];
    assert(order@ =~= all_tiers());
    let mut counts: Vec<(&'static str, usize)> = Vec::new();
    let mut index: usize = 0;
    assert(counts@.map_values(seen) =~= counted_tiers(tiers@, 0));
    while index < 5
        invariant
            index <= 5,
            order@ == all_tiers(),
            seen == |entry: (&'static str, usize)| (entry.0@, entry.1 as nat),
            counts@.map_values(seen) == counted_tiers(tiers@, index as int),
        decreases 5 - index,
    {
        let tier: DistanceProvenance = order[index];
        let trips: usize = count_tier(tiers, tier);
        let ghost held = counts@;
        if trips > 0 {
            let name: &'static str = provenance_name(tier);
            counts.push((name, trips));
            assert(counts@.map_values(seen) =~= held.map_values(seen).push(
                (name@, trips as nat),
            ));
        }
        index += 1;
    }
    counts
}

/// The number of street arrays a walking network stores: the core arrays,
/// the attribute group and the elevations, where it has them.
pub fn street_descriptor_count(attributes: bool, elevations: bool) -> (count: usize)
    ensures
        count == 13 + (if attributes {
            6int
        } else {
            0
        }) + (if elevations {
            1int
        } else {
            0
        }),
{
    let base: usize = if attributes {
        19
    } else {
        13
    };
    if elevations {
        base + 1
    } else {
        base
    }
}

/// Offsets with their stops resolved, up to the first that fails.
pub open spec fn resolved_offsets(
    index: StopIndex,
    offsets: Seq<(String, u32)>,
    count: int,
) -> Result<Seq<(u32, u32)>, Seq<char>>
    decreases count,
{
    if count <= 0 {
        Ok(Seq::empty())
    } else {
        match resolved_offsets(index, offsets, count - 1) {
            Err(text) => Err(text),
            Ok(before) => match resolved_stop(
                index.stops(),
                index.feed_count(),
                offsets[count - 1].0@,
            ) {
                Ok(stop) => Ok(before.push((stop, offsets[count - 1].1))),
                Err(text) => Err(text),
            },
        }
    }
}

proof fn lemma_offsets_stay_refused(
    index: StopIndex,
    offsets: Seq<(String, u32)>,
    refused: int,
    count: int,
)
    requires
        0 <= refused <= count,
        resolved_offsets(index, offsets, refused) is Err,
    ensures
        resolved_offsets(index, offsets, count) == resolved_offsets(index, offsets, refused),
    decreases count,
{
    if refused < count {
        lemma_offsets_stay_refused(index, offsets, refused, count - 1);
    }
}

/// Resolves the stops of access or egress offsets; the first that fails
/// decides.
pub fn resolve_offsets(index: &StopIndex, offsets: &Vec<(String, u32)>) -> (resolved: Result<
    Vec<(u32, u32)>,
    KeyError,
>)
    requires
        index.wf(),
    ensures
        match resolved_offsets(*index, offsets@, offsets@.len() as int) {
            Ok(expected) => resolved matches Ok(resolved) && resolved@ == expected,
            Err(text) => resolved matches Err(error) && error.message@ == text,
        },
{
    let mut resolved: Vec<(u32, u32)> = Vec::new();
    let mut at: usize = 0;
    while at < offsets.len()
        invariant
            index.wf(),
            at <= offsets@.len(),
            resolved_offsets(*index, offsets@, at as int) == Ok::<Seq<(u32, u32)>, Seq<char>>(
                resolved@,
            ),
        decreases offsets.len() - at,
    {
        match index.resolve_stop(offsets[at].0.as_str()) {
            Ok(stop) => {
                resolved.push((stop, offsets[at].1));
            },
            Err(error) => {
                proof {
                    lemma_offsets_stay_refused(*index, offsets@, at + 1, offsets@.len() as int);
                }
                return Err(error);
            },
        }
        at += 1;
    }
    Ok(resolved)
}

/// Every point in its own slot.
pub open spec fn own_slots(points: nat) -> Seq<Option<usize>> {
    Seq::new(points, |i: int| Some(i as usize))
}

/// Inverts the links of destination points: by stop, the points a final walk
/// off that stop reaches, with its seconds and meters.
pub fn point_egress(stop_count: usize, links: &Vec<Option<Vec<WalkedStop>>>) -> (map: Vec<
    Vec<(u32, u32, u64)>,
>)
    requires
        links@.len() <= u32::MAX,
        walks_in_range(links@, stop_count as nat),
    ensures
        map@.len() == stop_count,
        forall|s: int|
            0 <= s < stop_count ==> (#[trigger] map@[s])@ == street_entries(
                own_slots(links@.len()),
                links@,
                s,
                links@.len() as int,
            ),
{
    if stop_count == 0 {
        return Vec::new();
    }
    let mut slots: Vec<Option<usize>> = Vec::new();
    let mut nowhere: Vec<u32> = Vec::new();
    let mut point: usize = 0;
    while point < links.len()
        invariant
            point <= links@.len(),
            slots@ == own_slots(point as nat),
            nowhere@ == Seq::new(point as nat, |i: int| 0u32),
        decreases links.len() - point,
    {
        slots.push(Some(point));
        nowhere.push(0);
        point += 1;
        assert(slots@ =~= own_slots(point as nat));
        assert(nowhere@ =~= Seq::new(point as nat, |i: int| 0u32));
    }
    let map = matrix_street_egress(stop_count, &nowhere, &slots, links);
    proof {
        assert forall|s: int| 0 <= s < stop_count implies (#[trigger] map@[s])@ == street_entries(
            own_slots(links@.len()),
            links@,
            s,
            links@.len() as int,
        ) by {
            lemma_no_bare_entries(links@.len(), nowhere@, s, links@.len() as int);
        }
    }
    map
}

proof fn lemma_no_bare_entries(points: nat, destinations: Seq<u32>, source: int, count: int)
    requires
        0 <= count <= points,
    ensures
        bare_entries(own_slots(points), destinations, source, count) == Seq::<
            (u32, u32, u64),
        >::empty(),
    decreases count,
{
    if count > 0 {
        lemma_no_bare_entries(points, destinations, source, count - 1);
    }
}

/// A build warns once of trips it left out, and once of times it filled in,
/// in this order, each with its count, and of nothing where there are none.
pub proof fn law_builds_warn_of_what_they_did(quarantined: usize, interpolated: usize)
    ensures
        ({
            let texts = warning_texts(quarantined, interpolated);
            &&& quarantined == 0 && interpolated == 0 <==> texts.len() == 0
            &&& quarantined > 0 && interpolated > 0 ==> texts.len() == 2
            &&& quarantined > 0 ==> texts[0] == quarantine_text(quarantined as nat)
            &&& interpolated > 0 ==> texts.last() == interpolation_text(interpolated as nat)
        }),
{
}

/// The trips of a provenance are counted one by one: another trip counts
/// where it has it.
pub proof fn law_tiers_count_their_trips(
    tiers: Seq<DistanceProvenance>,
    tier: DistanceProvenance,
    next: DistanceProvenance,
)
    ensures
        tier_count(Seq::empty(), tier, 0) == 0,
        ({
            let more = tier_count(tiers.push(next), tier, tiers.len() as int + 1);
            let held = tier_count(tiers, tier, tiers.len() as int);
            &&& next == tier ==> more == held + 1
            &&& next != tier ==> more == held
        }),
{
    lemma_tier_prefix(tiers, tiers.push(next), tier, tiers.len() as int);
}

proof fn lemma_tier_prefix(
    left: Seq<DistanceProvenance>,
    right: Seq<DistanceProvenance>,
    tier: DistanceProvenance,
    count: int,
)
    requires
        forall|t: int| 0 <= t < count ==> #[trigger] left[t] == right[t],
    ensures
        tier_count(left, tier, count) == tier_count(right, tier, count),
    decreases count,
{
    if count > 0 {
        assert(left[count - 1] == right[count - 1]);
        lemma_tier_prefix(left, right, tier, count - 1);
    }
}

/// A provenance is listed with its count exactly where some trip has it.
pub proof fn law_occurring_tiers_are_listed(
    tiers: Seq<DistanceProvenance>,
    tier: DistanceProvenance,
)
    ensures
        ({
            let trips = tier_count(tiers, tier, tiers.len() as int);
            trips > 0 ==> counted_tiers(tiers, 5).contains((tier_name(tier), trips))
        }),
        forall|k: int|
            0 <= k < counted_tiers(tiers, 5).len() ==> (#[trigger] counted_tiers(tiers, 5)[k]).1 > 0
                && listed_tier(tiers, counted_tiers(tiers, 5)[k]),
{
    let at: int = match tier {
        DistanceProvenance::ShapeDist => 0,
        DistanceProvenance::ShapeLinRef => 1,
        DistanceProvenance::OsmRelation => 2,
        DistanceProvenance::MapMatched => 3,
        DistanceProvenance::CrowFly => 4,
    };
    assert(all_tiers()[at] == tier);
    lemma_counted_tiers(tiers, 5, at);
}

/// Whether an entry is some provenance's name and count.
pub open spec fn listed_tier(tiers: Seq<DistanceProvenance>, entry: (Seq<char>, nat)) -> bool {
    exists|tier: DistanceProvenance|
        entry.0 == tier_name(tier) && entry.1 == #[trigger] tier_count(
            tiers,
            tier,
            tiers.len() as int,
        )
}

proof fn lemma_counted_tiers(tiers: Seq<DistanceProvenance>, count: int, at: int)
    requires
        0 <= count <= 5,
        0 <= at < 5,
    ensures
        at < count && tier_count(tiers, all_tiers()[at], tiers.len() as int) > 0 ==> counted_tiers(
            tiers,
            count,
        ).contains(
            (
                tier_name(all_tiers()[at]),
                tier_count(tiers, all_tiers()[at], tiers.len() as int),
            ),
        ),
        forall|k: int|
            0 <= k < counted_tiers(tiers, count).len() ==> (#[trigger] counted_tiers(
                tiers,
                count,
            )[k]).1 > 0 && listed_tier(tiers, counted_tiers(tiers, count)[k]),
    decreases count,
{
    if count > 0 {
        lemma_counted_tiers(tiers, count - 1, at);
        let before = counted_tiers(tiers, count - 1);
        let after = counted_tiers(tiers, count);
        let tier = all_tiers()[at];
        let entry = (tier_name(tier), tier_count(tiers, tier, tiers.len() as int));
        if at < count && entry.1 > 0 {
            if at < count - 1 {
                let k = choose|k: int| 0 <= k < before.len() && before[k] == entry;
                assert(after[k] == entry);
            } else {
                assert(after[after.len() - 1] == entry);
            }
        }
        assert forall|k: int| 0 <= k < after.len() implies (#[trigger] after[k]).1 > 0
            && listed_tier(tiers, after[k]) by {
            if k < before.len() {
                assert(after[k] == before[k]);
            } else {
                let last = all_tiers()[count - 1];
                assert(after[k].1 == tier_count(tiers, last, tiers.len() as int));
            }
        }
    }
}

/// Offsets keep their seconds beside their resolved stops, in order; the
/// first stop that does not resolve decides.
pub proof fn law_offsets_keep_their_seconds(
    index: StopIndex,
    offsets: Seq<(String, u32)>,
    count: int,
)
    requires
        0 <= count <= offsets.len(),
    ensures
        match resolved_offsets(index, offsets, count) {
            Ok(found) => found.len() == count && forall|i: int|
                0 <= i < count ==> (#[trigger] found[i]).1 == offsets[i].1 && resolved_stop(
                    index.stops(),
                    index.feed_count(),
                    offsets[i].0@,
                ) == Ok::<u32, Seq<char>>(found[i].0),
            Err(text) => exists|i: int|
                0 <= i < count && resolved_stop(
                    index.stops(),
                    index.feed_count(),
                    (#[trigger] offsets[i]).0@,
                ) == Err::<u32, Seq<char>>(text) && forall|j: int|
                    0 <= j < i ==> resolved_stop(
                        index.stops(),
                        index.feed_count(),
                        (#[trigger] offsets[j]).0@,
                    ) is Ok,
        },
    decreases count,
{
    if count > 0 {
        law_offsets_keep_their_seconds(index, offsets, count - 1);
        match resolved_offsets(index, offsets, count - 1) {
            Err(text) => {
                let i = choose|i: int|
                    0 <= i < count - 1 && resolved_stop(
                        index.stops(),
                        index.feed_count(),
                        (#[trigger] offsets[i]).0@,
                    ) == Err::<u32, Seq<char>>(text) && forall|j: int|
                        0 <= j < i ==> resolved_stop(
                            index.stops(),
                            index.feed_count(),
                            (#[trigger] offsets[j]).0@,
                        ) is Ok;
                assert(resolved_stop(index.stops(), index.feed_count(), offsets[i].0@) == Err::<
                    u32,
                    Seq<char>,
                >(text));
            },
            Ok(before) => {
                assert forall|j: int| 0 <= j < count - 1 implies resolved_stop(
                    index.stops(),
                    index.feed_count(),
                    (#[trigger] offsets[j]).0@,
                ) is Ok by {
                    assert(before[j].1 == offsets[j].1);
                }
                assert(resolved_stop(index.stops(), index.feed_count(), offsets[count - 1].0@)
                    == resolved_stop(index.stops(), index.feed_count(), offsets[count - 1].0@));
            },
        }
    }
}

/// Points have slots of their own, one after the other.
pub proof fn law_points_keep_their_own_slot(points: nat, i: int)
    requires
        0 <= i < points <= usize::MAX,
    ensures
        own_slots(points).len() == points,
        own_slots(points)[i] is Some,
        own_slots(points)[i]->0 == i,
{
}

/// A listed route has the feed's public id and numeric type, and the agency it
/// names; one that names none has an agency only where its feed has just one.
pub proof fn law_listed_routes_report_their_own(
    listed: ListedRoute,
    route: FeedRoute,
    agencies: Seq<Agency>,
    feed_count: u32,
    first: int,
    second: int,
)
    requires
        reports_route(listed, route, agencies, feed_count),
    ensures
        listed.id@ == public_text(feed_count, route.feed, route.id@),
        listed.route_type == type_code(route.route_type),
        route.agency_id matches Some(own) ==> text_of(listed.agency) == Some(
            public_text(feed_count, route.feed, own@),
        ),
        route.agency_id is None && 0 <= first < second < agencies.len() && agencies[first].feed
            == route.feed && agencies[second].feed == route.feed ==> listed.agency is None,
{
    if 0 <= first < second < agencies.len() && agencies[first].feed == route.feed {
        law_routes_have_the_only_agency(agencies, route.feed, route.id@, first, second);
    }
}

} // verus!
