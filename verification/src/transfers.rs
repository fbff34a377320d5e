//! Footpaths on their way in, transfer edges on their way out, and the stop
//! links of the multimodal street graph.

use crate::bytes::{equal, f64_equal, f64_is_cost, is_cost};
use crate::ids::{refused_for, resolved_stop, Fault, Refusal, StopIndex};
use crate::legs::NetworkIds;
use crate::reduction::{Snap, Transfer, TransferRows};
use crate::text::{decimal, decimal_text, joined, joined_text, ValueError};
use std::collections::HashMap;
use vstd::prelude::*;

verus! {

/// A footpath between two stops by id: its ends, seconds and meters (a
/// double's bits).
pub struct Footpath {
    pub from: String,
    pub to: String,
    pub seconds: u32,
    pub meters: u64,
}

/// A footpath between two stops by index.
#[derive(Debug, Clone, Copy, PartialEq, Eq, Structural)]
pub struct FootpathEdge {
    pub from: u32,
    pub to: u32,
    pub seconds: u32,
    pub meters: u64,
}

pub open spec fn bad_length_text(index: nat) -> Seq<char> {
    joined_text(
        seq!["footpath "@, decimal_text(index), " has a negative or non-finite length"@],
    )
}

pub open spec fn bad_position_text(index: nat) -> Seq<char> {
    joined_text(
        seq!["footpath "@, decimal_text(index), " references a position outside stop_ids"@],
    )
}

fn bad_length(index: usize) -> (error: ValueError)
    ensures
        error.message@ == bad_length_text(index as nat),
{
    let number = decimal(index as u64);
    let pieces: [&str; 3] = ["footpath ", number.as_str(), " has a negative or non-finite length"];
    let text = joined(&pieces);
    assert(pieces@.map_values(|piece: &str| piece@) =~= seq![
        "footpath "@,
        decimal_text(index as nat),
        " has a negative or non-finite length"@,
    ]);
    ValueError::new(text)
}

fn bad_position(index: usize) -> (error: ValueError)
    ensures
        error.message@ == bad_position_text(index as nat),
{
    let number = decimal(index as u64);
    let pieces: [&str; 3] = [
        "footpath ",
        number.as_str(),
        " references a position outside stop_ids",
    ];
    let text = joined(&pieces);
    assert(pieces@.map_values(|piece: &str| piece@) =~= seq![
        "footpath "@,
        decimal_text(index as nat),
        " references a position outside stop_ids"@,
    ]);
    ValueError::new(text)
}

/// One footpath by index, or why it is refused: its length first, then its
/// ends.
pub open spec fn footpath_edge(index: StopIndex, footpath: Footpath, position: nat) -> Result<
    FootpathEdge,
    Fault,
> {
    if !f64_is_cost(footpath.meters) {
        Err(Fault::Value(bad_length_text(position)))
    } else {
        match resolved_stop(index.stops(), index.feed_count(), footpath.from@) {
            Err(text) => Err(Fault::Key(text)),
            Ok(from) => match resolved_stop(index.stops(), index.feed_count(), footpath.to@) {
                Err(text) => Err(Fault::Key(text)),
                Ok(to) => Ok(
                    FootpathEdge { from, to, seconds: footpath.seconds, meters: footpath.meters },
                ),
            },
        }
    }
}

/// The first `count` footpaths by index; the first that is refused decides.
pub open spec fn footpath_edges(index: StopIndex, footpaths: Seq<Footpath>, count: int) -> Result<
    Seq<FootpathEdge>,
    Fault,
>
    decreases count,
{
    if count <= 0 {
        Ok(Seq::empty())
    } else {
        match footpath_edges(index, footpaths, count - 1) {
            Err(fault) => Err(fault),
            Ok(edges) => match footpath_edge(index, footpaths[count - 1], (count - 1) as nat) {
                Ok(edge) => Ok(edges.push(edge)),
                Err(fault) => Err(fault),
            },
        }
    }
}

proof fn lemma_edges_stay_refused(
    index: StopIndex,
    footpaths: Seq<Footpath>,
    few: int,
    many: int,
)
    requires
        few <= many,
        footpath_edges(index, footpaths, few) is Err,
        0 <= few,
    ensures
        footpath_edges(index, footpaths, many) == footpath_edges(index, footpaths, few),
    decreases many - few,
{
    if few < many {
        lemma_edges_stay_refused(index, footpaths, few, many - 1);
    }
}

fn resolve_footpath(index: &StopIndex, footpath: &Footpath, position: usize) -> (edge: Result<
    FootpathEdge,
    Refusal,
>)
    requires
        index.wf(),
    ensures
        match footpath_edge(*index, *footpath, position as nat) {
            Ok(expected) => edge == Ok::<FootpathEdge, Refusal>(expected),
            Err(fault) => edge matches Err(error) && refused_for(error, fault),
        },
{
    if !is_cost(footpath.meters) {
        return Err(Refusal::Value(bad_length(position)));
    }
    let from: u32 = match index.resolve_stop(footpath.from.as_str()) {
        Ok(from) => from,
        Err(error) => return Err(Refusal::Key(error)),
    };
    let to: u32 = match index.resolve_stop(footpath.to.as_str()) {
        Ok(to) => to,
        Err(error) => return Err(Refusal::Key(error)),
    };
    Ok(FootpathEdge { from, to, seconds: footpath.seconds, meters: footpath.meters })
}

/// Footpaths between stop ids as edges between stops.
pub fn set_transfers(index: &StopIndex, footpaths: &Vec<Footpath>) -> (edges: Result<
    Vec<FootpathEdge>,
    Refusal,
>)
    requires
        index.wf(),
    ensures
        match footpath_edges(*index, footpaths@, footpaths@.len() as int) {
            Ok(expected) => edges matches Ok(edges) && edges@ == expected,
            Err(fault) => edges matches Err(error) && refused_for(error, fault),
        },
{
    let mut edges: Vec<FootpathEdge> = Vec::new();
    let mut at: usize = 0;
    while at < footpaths.len()
        invariant
            at <= footpaths@.len(),
            index.wf(),
            footpath_edges(*index, footpaths@, at as int) == Ok::<
                Seq<FootpathEdge>,
                Fault,
            >(edges@),
        decreases footpaths.len() - at,
    {
        match resolve_footpath(index, &footpaths[at], at) {
            Ok(edge) => {
                edges.push(edge);
            },
            Err(error) => {
                proof {
                    lemma_edges_stay_refused(
                        *index,
                        footpaths@,
                        at + 1,
                        footpaths@.len() as int,
                    );
                }
                return Err(error);
            },
        }
        at += 1;
    }
    Ok(edges)
}

/// Footpath columns: positions into a list of stops, seconds, and meters as
/// doubles' bits.
pub struct FootpathArrays {
    pub from_index: Vec<u32>,
    pub to_index: Vec<u32>,
    pub seconds: Vec<u32>,
    pub meters: Vec<u64>,
}

impl FootpathArrays {
    /// Whether all columns are equally long.
    pub open spec fn aligned(&self) -> bool {
        &&& self.from_index@.len() == self.to_index@.len()
        &&& self.from_index@.len() == self.seconds@.len()
        &&& self.from_index@.len() == self.meters@.len()
    }
}

pub open spec fn array_edge(stops: Seq<u32>, arrays: FootpathArrays, at: int) -> Result<
    FootpathEdge,
    Seq<char>,
> {
    if !f64_is_cost(arrays.meters@[at]) {
        Err(bad_length_text(at as nat))
    } else if arrays.from_index@[at] >= stops.len() || arrays.to_index@[at] >= stops.len() {
        Err(bad_position_text(at as nat))
    } else {
        Ok(
            FootpathEdge {
                from: stops[arrays.from_index@[at] as int],
                to: stops[arrays.to_index@[at] as int],
                seconds: arrays.seconds@[at],
                meters: arrays.meters@[at],
            },
        )
    }
}

/// The first `count` array footpaths; the first that is refused decides.
pub open spec fn array_edges(stops: Seq<u32>, arrays: FootpathArrays, count: int) -> Result<
    Seq<FootpathEdge>,
    Seq<char>,
>
    decreases count,
{
    if count <= 0 {
        Ok(Seq::empty())
    } else {
        match array_edges(stops, arrays, count - 1) {
            Err(text) => Err(text),
            Ok(edges) => match array_edge(stops, arrays, count - 1) {
                Ok(edge) => Ok(edges.push(edge)),
                Err(text) => Err(text),
            },
        }
    }
}

pub open spec fn array_outcome(stops: Seq<u32>, arrays: FootpathArrays) -> Result<
    Seq<FootpathEdge>,
    Seq<char>,
> {
    if arrays.aligned() {
        array_edges(stops, arrays, arrays.from_index@.len() as int)
    } else {
        Err("footpath arrays must all have the same length"@)
    }
}

proof fn lemma_arrays_stay_refused(stops: Seq<u32>, arrays: FootpathArrays, few: int, many: int)
    requires
        0 <= few <= many,
        array_edges(stops, arrays, few) is Err,
    ensures
        array_edges(stops, arrays, many) == array_edges(stops, arrays, few),
    decreases many - few,
{
    if few < many {
        lemma_arrays_stay_refused(stops, arrays, few, many - 1);
    }
}

/// Footpath columns as edges between stops; `stops` are the resolved stops
/// the positions point into.
pub fn set_transfer_arrays(stops: &Vec<u32>, arrays: &FootpathArrays) -> (edges: Result<
    Vec<FootpathEdge>,
    ValueError,
>)
    ensures
        match array_outcome(stops@, *arrays) {
            Ok(expected) => edges matches Ok(edges) && edges@ == expected,
            Err(text) => edges matches Err(error) && error.message@ == text,
        },
{
    let count: usize = arrays.from_index.len();
    if count != arrays.to_index.len() || count != arrays.seconds.len() || count
        != arrays.meters.len() {
        return Err(
            ValueError::new("footpath arrays must all have the same length".to_owned()),
        );
    }
    let mut edges: Vec<FootpathEdge> = Vec::new();
    let mut at: usize = 0;
    while at < count
        invariant
            at <= count == arrays.from_index@.len(),
            arrays.aligned(),
            array_edges(stops@, *arrays, at as int) == Ok::<Seq<FootpathEdge>, Seq<char>>(edges@),
        decreases count - at,
    {
        let length: u64 = arrays.meters[at];
        if !is_cost(length) {
            proof {
                lemma_arrays_stay_refused(stops@, *arrays, at + 1, count as int);
            }
            return Err(bad_length(at));
        }
        let from: u32 = arrays.from_index[at];
        let to: u32 = arrays.to_index[at];
        if from as usize >= stops.len() || to as usize >= stops.len() {
            proof {
                lemma_arrays_stay_refused(stops@, *arrays, at + 1, count as int);
            }
            return Err(bad_position(at));
        }
        edges.push(
            FootpathEdge {
                from: stops[from as usize],
                to: stops[to as usize],
                seconds: arrays.seconds[at],
                meters: length,
            },
        );
        at += 1;
    }
    Ok(edges)
}

/// The key of a stop pair.
pub open spec fn pair_key(from: u32, to: u32) -> u64 {
    (from * 0x1_0000_0000 + to) as u64
}

pub(crate) fn key_of(from: u32, to: u32) -> (key: u64)
    ensures
        key == pair_key(from, to),
{
    from as u64 * 0x1_0000_0000 + to as u64
}

/// Keys order as their stop pairs do: by the first stop, then the second.
pub proof fn law_pair_keys_order(from: u32, to: u32, other_from: u32, other_to: u32)
    ensures
        pair_key(from, to) < pair_key(other_from, other_to) <==> from < other_from || (from
            == other_from && to < other_to),
{
}

/// Different stop pairs have different keys, so no pair takes another's ride.
pub proof fn law_pair_keys_differ(from: u32, to: u32, other_from: u32, other_to: u32)
    requires
        pair_key(from, to) == pair_key(other_from, other_to),
    ensures
        from == other_from && to == other_to,
{
}

/// The meters ridden along an edge, where its pair has a vehicle's ride.
pub open spec fn ridden_meters(rides: Map<u64, u64>, from: u32, to: u32) -> Option<u64> {
    if rides.contains_key(pair_key(from, to)) {
        Some(rides[pair_key(from, to)])
    } else {
        None
    }
}

/// The stop whose row an edge slot lies in.
pub open spec fn edge_ride(rows: TransferRows, rides: Map<u64, u64>, stop: int, slot: int) -> Option<
    u64,
> {
    ridden_meters(rides, stop as u32, rows.edges@[slot].to)
}

pub open spec fn in_row(rows: TransferRows, stop: int, slot: int) -> bool {
    0 <= stop < rows.offsets@.len() - 1 && rows.offsets@[stop] <= slot < rows.offsets@[stop + 1]
}

/// Whether columns over the edges say which edges a vehicle rides and how
/// many meters, nothing for walked ones.
pub open spec fn rides_aligned(
    rows: TransferRows,
    rides: Map<u64, u64>,
    flags: Seq<bool>,
    meters: Seq<u64>,
) -> bool {
    &&& flags.len() == rows.edges@.len()
    &&& meters.len() == rows.edges@.len()
    &&& forall|stop: int, slot: int| #[trigger]
        in_row(rows, stop, slot) ==> flags[slot] == (edge_ride(rows, rides, stop, slot) is Some)
            && meters[slot] == match edge_ride(rows, rides, stop, slot) {
            Some(ridden) => ridden,
            None => 0,
        }
}

/// Aligns a vehicle's rides, by stop pair, with the edges of a transfer set:
/// which edges bear a ride, and the meters ridden along each.
pub fn align_rides(rows: &TransferRows, rides: &HashMap<u64, u64>, stops: usize) -> (aligned: (
    Vec<bool>,
    Vec<u64>,
))
    requires
        rows.wf(stops as nat),
        stops <= u32::MAX,
    ensures
        rides_aligned(*rows, rides@, aligned.0@, aligned.1@),
{
    broadcast use vstd::std_specs::hash::group_hash_axioms;

    let mut flags: Vec<bool> = Vec::new();
    let mut meters: Vec<u64> = Vec::new();
    let mut stop: usize = 0;
    while stop < stops
        invariant
            stop <= stops <= u32::MAX,
            rows.wf(stops as nat),
            flags@.len() == rows.offsets@[stop as int],
            meters@.len() == flags@.len(),
            forall|s: int, slot: int|
                s < stop && #[trigger] in_row(*rows, s, slot) ==> slot < flags@.len()
                    && flags@[slot] == (edge_ride(*rows, rides@, s, slot) is Some) && meters@[slot]
                    == match edge_ride(*rows, rides@, s, slot) {
                    Some(ridden) => ridden,
                    None => 0,
                },
        decreases stops - stop,
    {
        assert(rows.offsets@[stop as int] <= rows.offsets@[stop + 1]);
        assert(rows.offsets@[stop + 1] <= rows.offsets@[stops as int]);
        let end: usize = rows.offsets[stop + 1] as usize;
        let mut slot: usize = rows.offsets[stop] as usize;
        while slot < end
            invariant
                stop < stops <= u32::MAX,
                rows.wf(stops as nat),
                end == rows.offsets@[stop + 1],
                end <= rows.edges@.len(),
                rows.offsets@[stop as int] <= slot <= end,
                flags@.len() == slot,
                meters@.len() == slot,
                forall|s: int, at: int|
                    s < stop && #[trigger] in_row(*rows, s, at) ==> at < flags@.len() && flags@[at]
                        == (edge_ride(*rows, rides@, s, at) is Some) && meters@[at] == match edge_ride(
                        *rows,
                        rides@,
                        s,
                        at,
                    ) {
                        Some(ridden) => ridden,
                        None => 0,
                    },
                forall|at: int|
                    rows.offsets@[stop as int] <= at < slot ==> #[trigger] flags@[at] == (edge_ride(
                        *rows,
                        rides@,
                        stop as int,
                        at,
                    ) is Some) && meters@[at] == match edge_ride(*rows, rides@, stop as int, at) {
                        Some(ridden) => ridden,
                        None => 0,
                    },
            decreases end - slot,
        {
            let to: u32 = rows.edges[slot].to;
            let key: u64 = key_of(stop as u32, to);
            match rides.get(&key) {
                Some(ridden) => {
                    flags.push(true);
                    meters.push(*ridden);
                },
                None => {
                    flags.push(false);
                    meters.push(0);
                },
            }
            slot += 1;
        }
        proof {
            assert forall|s: int, at: int| s < stop + 1 && #[trigger] in_row(
                *rows,
                s,
                at,
            ) implies at < flags@.len() && flags@[at] == (edge_ride(*rows, rides@, s, at) is Some)
                && meters@[at] == (match edge_ride(*rows, rides@, s, at) {
                Some(ridden) => ridden,
                None => 0,
            }) by {
                if s == stop {
                    assert(flags@[at] == (edge_ride(*rows, rides@, stop as int, at) is Some));
                }
            }
        }
        stop += 1;
    }
    (flags, meters)
}

/// The edges of the stops before `stop`, by public id.
pub open spec fn listed_edges(
    rows: TransferRows,
    ids: NetworkIds,
    stop: int,
) -> Seq<(Seq<char>, Seq<char>, u32, u64)>
    decreases stop,
{
    if stop <= 0 {
        Seq::empty()
    } else {
        listed_edges(rows, ids, stop - 1) + row_edges(
            rows,
            ids,
            stop - 1,
            rows.offsets@[stop] - rows.offsets@[stop - 1],
        )
    }
}

/// The first `count` edges of one stop, by public id.
pub open spec fn row_edges(rows: TransferRows, ids: NetworkIds, stop: int, count: int) -> Seq<
    (Seq<char>, Seq<char>, u32, u64),
> {
    Seq::new(
        count as nat,
        |i: int|
            {
                let edge = rows.edges@[rows.offsets@[stop] + i];
                (ids.stop_text(stop as u32), ids.stop_text(edge.to), edge.seconds, edge.meters)
            },
    )
}

/// A listed edge as plain values.
pub open spec fn edge_view(edge: (String, String, u32, u64)) -> (Seq<char>, Seq<char>, u32, u64) {
    (edge.0@, edge.1@, edge.2, edge.3)
}

/// Every edge of a transfer set, by public id, in order of the stops.
pub fn edge_list(rows: &TransferRows, ids: &NetworkIds) -> (edges: Vec<(String, String, u32, u64)>)
    requires
        rows.wf(ids.stops@.len()),
        ids.stops@.len() <= u32::MAX,
    ensures
        edges@.map_values(|edge: (String, String, u32, u64)| edge_view(edge)) == listed_edges(
            *rows,
            *ids,
            ids.stops@.len() as int,
        ),
{
    let stops: usize = ids.stops.len();
    let ghost view = |edge: (String, String, u32, u64)| edge_view(edge);
    let mut edges: Vec<(String, String, u32, u64)> = Vec::new();
    let mut stop: usize = 0;
    assert(edges@.map_values(view) =~= listed_edges(*rows, *ids, 0));
    while stop < stops
        invariant
            stop <= stops == ids.stops@.len(),
            stops <= u32::MAX,
            rows.wf(stops as nat),
            view == |edge: (String, String, u32, u64)| edge_view(edge),
            edges@.map_values(view) == listed_edges(*rows, *ids, stop as int),
        decreases stops - stop,
    {
        assert(rows.offsets@[stop as int] <= rows.offsets@[stop + 1]);
        assert(rows.offsets@[stop + 1] <= rows.offsets@[stops as int]);
        let ghost held = listed_edges(*rows, *ids, stop as int);
        let start: usize = rows.offsets[stop] as usize;
        let end: usize = rows.offsets[stop + 1] as usize;
        let mut slot: usize = start;
        assert(held + row_edges(*rows, *ids, stop as int, 0) =~= held);
        while slot < end
            invariant
                stop < stops == ids.stops@.len(),
                stops <= u32::MAX,
                rows.wf(stops as nat),
                start == rows.offsets@[stop as int],
                start <= slot <= end <= rows.edges@.len(),
                view == |edge: (String, String, u32, u64)| edge_view(edge),
                edges@.map_values(view) == held + row_edges(
                    *rows,
                    *ids,
                    stop as int,
                    slot - start,
                ),
            decreases end - slot,
        {
            let edge: Transfer = rows.edges[slot];
            assert(rows.edges@[slot as int].to < stops);
            let ghost before = edges@;
            let from = ids.public_stop_id(stop as u32);
            let to = ids.public_stop_id(edge.to);
            edges.push((from, to, edge.seconds, edge.meters));
            slot += 1;
            assert(edges@.map_values(view) =~= before.map_values(view).push(
                edge_view(edges@.last()),
            ));
            assert(edges@.map_values(view) =~= held + row_edges(
                *rows,
                *ids,
                stop as int,
                slot - start,
            ));
        }
        stop += 1;
    }
    edges
}

/// Candidate links of a stop, each with the modes that meet the graph there.
pub open spec fn linked_at(links: Seq<(Snap, u8)>, snap: Snap, from: int) -> int
    decreases links.len() - from,
{
    if from >= links.len() || (links[from].0.edge == snap.edge && f64_equal(
        links[from].0.fraction,
        snap.fraction,
    )) {
        from
    } else {
        linked_at(links, snap, from + 1)
    }
}

/// The links after the snaps of the first `count` modes: a snap at a known
/// place adds its mode there, another is a new link.
pub open spec fn links_upto(snaps: Seq<(Option<Snap>, u8)>, count: int) -> Seq<(Snap, u8)>
    decreases count,
{
    if count <= 0 {
        Seq::empty()
    } else {
        let before = links_upto(snaps, count - 1);
        match snaps[count - 1].0 {
            None => before,
            Some(snap) => {
                let bit = snaps[count - 1].1;
                let at = linked_at(before, snap, 0);
                if at < before.len() {
                    before.update(at, (before[at].0, before[at].1 | bit))
                } else {
                    before.push((snap, bit))
                }
            },
        }
    }
}

/// A stop's candidate links: where each mode snaps, with one link for modes
/// that meet the graph at the same place.
pub fn stop_links(snaps: &Vec<(Option<Snap>, u8)>) -> (links: Vec<(Snap, u8)>)
    ensures
        links@ == links_upto(snaps@, snaps@.len() as int),
{
    let mut links: Vec<(Snap, u8)> = Vec::new();
    let mut index: usize = 0;
    while index < snaps.len()
        invariant
            index <= snaps@.len(),
            links@ == links_upto(snaps@, index as int),
        decreases snaps.len() - index,
    {
        let (snapped, bit): (Option<Snap>, u8) = snaps[index];
        if let Some(snap) = snapped {
            let mut at: usize = 0;
            while at < links.len() && !(links[at].0.edge == snap.edge && equal(
                links[at].0.fraction,
                snap.fraction,
            ))
                invariant
                    at <= links@.len(),
                    linked_at(links@, snap, 0) == linked_at(links@, snap, at as int),
                decreases links.len() - at,
            {
                at += 1;
            }
            if at < links.len() {
                let (known, mask): (Snap, u8) = links[at];
                links.set(at, (known, mask | bit));
            } else {
                links.push((snap, bit));
            }
        }
        index += 1;
    }
    links
}

/// The first link that a mode meets the graph at.
pub open spec fn mode_link(links: Seq<(Snap, u8)>, bit: u8, from: int) -> Option<Snap>
    decreases links.len() - from,
{
    if from >= links.len() {
        None
    } else if links[from].1 & bit != 0 {
        Some(links[from].0)
    } else {
        mode_link(links, bit, from + 1)
    }
}

/// Where each stop meets the graph for one mode.
pub fn mode_link_targets(links: &Vec<Vec<(Snap, u8)>>, bit: u8) -> (targets: Vec<Option<Snap>>)
    ensures
        targets@ == links@.map_values(|links: Vec<(Snap, u8)>| mode_link(links@, bit, 0)),
{
    let mut targets: Vec<Option<Snap>> = Vec::new();
    let mut stop: usize = 0;
    while stop < links.len()
        invariant
            stop <= links@.len(),
            targets@ == links@.map_values(
                |links: Vec<(Snap, u8)>| mode_link(links@, bit, 0),
            ).subrange(0, stop as int),
        decreases links.len() - stop,
    {
        let candidates = &links[stop];
        let mut found: Option<Snap> = None;
        let mut at: usize = 0;
        while at < candidates.len() && candidates[at].1 & bit == 0
            invariant
                at <= candidates@.len(),
                mode_link(candidates@, bit, 0) == mode_link(candidates@, bit, at as int),
            decreases candidates.len() - at,
        {
            at += 1;
        }
        if at < candidates.len() {
            found = Some(candidates[at].0);
        }
        targets.push(found);
        stop += 1;
        assert(targets@ =~= links@.map_values(
            |links: Vec<(Snap, u8)>| mode_link(links@, bit, 0),
        ).subrange(0, stop as int));
    }
    assert(targets@ =~= links@.map_values(|links: Vec<(Snap, u8)>| mode_link(links@, bit, 0)));
    targets
}

/// Whether a stop lies at a coordinate.
pub open spec fn coincides(stop: Option<(u64, u64)>, at: (u64, u64)) -> bool {
    stop matches Some(place) && f64_equal(place.0, at.0) && f64_equal(place.1, at.1)
}

/// A row with every linked stop at the query's own coordinate at zero, where
/// the budget admits anything at all.
pub open spec fn zeroed<T>(
    row: Seq<Option<T>>,
    zero: T,
    links: Seq<Option<Snap>>,
    stops: Seq<Option<(u64, u64)>>,
    at: (u64, u64),
    max_seconds: u64,
) -> Seq<Option<T>> {
    Seq::new(
        row.len(),
        |i: int|
            if f64_is_cost(max_seconds) && coincides(stops[i], at) && links[i] is Some {
                Some(zero)
            } else {
                row[i]
            },
    )
}

/// Puts every linked stop at the query's own coordinate at zero: the
/// connector would charge it twice.
pub fn zero_coincident_stops<T: Copy>(
    row: &mut Vec<Option<T>>,
    zero: T,
    links: &Vec<Option<Snap>>,
    stops: &Vec<Option<(u64, u64)>>,
    at: (u64, u64),
    max_seconds: u64,
)
    requires
        old(row)@.len() == links@.len() == stops@.len(),
    ensures
        final(row)@ == zeroed(old(row)@, zero, links@, stops@, at, max_seconds),
{
    let ghost start = row@;
    if !is_cost(max_seconds) {
        assert(row@ =~= zeroed(start, zero, links@, stops@, at, max_seconds));
        return;
    }
    let mut index: usize = 0;
    while index < row.len()
        invariant
            index <= row@.len() == start.len(),
            start.len() == links@.len() == stops@.len(),
            f64_is_cost(max_seconds),
            forall|i: int| index <= i < start.len() ==> #[trigger] row@[i] == start[i],
            forall|i: int|
                0 <= i < index ==> #[trigger] row@[i] == zeroed(
                    start,
                    zero,
                    links@,
                    stops@,
                    at,
                    max_seconds,
                )[i],
        decreases row.len() - index,
    {
        let here: bool = match stops[index] {
            Some((lat, lon)) => equal(lat, at.0) && equal(lon, at.1),
            None => false,
        };
        if here && links[index].is_some() {
            row.set(index, Some(zero));
        }
        index += 1;
    }
    assert(row@ =~= zeroed(start, zero, links@, stops@, at, max_seconds));
}

/// The reached, linked stops of a row among the first `count`.
pub open spec fn stop_rows_upto(
    row: Seq<Option<u32>>,
    links: Seq<Option<Snap>>,
    count: int,
) -> Seq<(u32, u32, Snap)>
    decreases count,
{
    if count <= 0 {
        Seq::empty()
    } else {
        match (row[count - 1], links[count - 1]) {
            (Some(seconds), Some(snap)) => stop_rows_upto(row, links, count - 1).push(
                ((count - 1) as u32, seconds, snap),
            ),
            _ => stop_rows_upto(row, links, count - 1),
        }
    }
}

/// A row over the stops as its reached, linked stops: stop, seconds, link.
pub fn stop_rows(row: &Vec<Option<u32>>, links: &Vec<Option<Snap>>) -> (rows: Vec<(u32, u32, Snap)>)
    requires
        row@.len() == links@.len() <= u32::MAX,
    ensures
        rows@ == stop_rows_upto(row@, links@, row@.len() as int),
{
    let mut rows: Vec<(u32, u32, Snap)> = Vec::new();
    let mut index: usize = 0;
    while index < row.len()
        invariant
            index <= row@.len() == links@.len(),
            row@.len() <= u32::MAX,
            rows@ == stop_rows_upto(row@, links@, index as int),
        decreases row.len() - index,
    {
        if let (Some(seconds), Some(snap)) = (row[index], links[index]) {
            rows.push((index as u32, seconds, snap));
        }
        index += 1;
    }
    rows
}

/// A footpath is taken where its length is an amount and both ends resolve,
/// and keeps its seconds and meters; its ends are the stops resolved.
pub proof fn law_footpaths_keep_their_fields(index: StopIndex, footpath: Footpath, position: nat)
    ensures
        ({
            let from = resolved_stop(index.stops(), index.feed_count(), footpath.from@);
            let to = resolved_stop(index.stops(), index.feed_count(), footpath.to@);
            &&& footpath_edge(index, footpath, position) is Ok <==> f64_is_cost(footpath.meters)
                && from is Ok && to is Ok
            &&& footpath_edge(index, footpath, position) matches Ok(edge) ==> edge.seconds
                == footpath.seconds && edge.meters == footpath.meters && from
                == Ok::<u32, Seq<char>>(edge.from) && to == Ok::<u32, Seq<char>>(edge.to)
            &&& footpath_edge(index, footpath, position) matches Err(Fault::Key(text)) ==> from
                == Err::<u32, Seq<char>>(text) || from is Ok && to == Err::<u32, Seq<char>>(text)
            &&& footpath_edge(index, footpath, position) matches Err(Fault::Value(_))
                ==> !f64_is_cost(footpath.meters)
        }),
{
}

/// All footpaths are taken, in order, or the first refused one decides.
pub proof fn law_footpaths_are_all_taken(
    index: StopIndex,
    footpaths: Seq<Footpath>,
    count: int,
)
    requires
        0 <= count <= footpaths.len(),
    ensures
        match footpath_edges(index, footpaths, count) {
            Ok(edges) => edges.len() == count && forall|i: int|
                0 <= i < count ==> footpath_edge(index, #[trigger] footpaths[i], i as nat) == Ok::<
                    FootpathEdge,
                    Fault,
                >(edges[i]),
            Err(fault) => exists|i: int|
                0 <= i < count && footpath_edge(index, #[trigger] footpaths[i], i as nat) == Err::<
                    FootpathEdge,
                    Fault,
                >(fault) && forall|j: int|
                    0 <= j < i ==> footpath_edge(index, #[trigger] footpaths[j], j as nat) is Ok,
        },
    decreases count,
{
    if count > 0 {
        law_footpaths_are_all_taken(index, footpaths, count - 1);
        if footpath_edges(index, footpaths, count - 1) is Ok {
            assert(footpath_edge(index, footpaths[count - 1], (count - 1) as nat)
                == footpath_edge(index, footpaths[count - 1], (count - 1) as nat));
        } else {
            let fault = footpath_edges(index, footpaths, count - 1)->Err_0;
            let i = choose|i: int|
                0 <= i < count - 1 && footpath_edge(index, #[trigger] footpaths[i], i as nat)
                    == Err::<FootpathEdge, Fault>(fault) && forall|j: int|
                    0 <= j < i ==> footpath_edge(index, #[trigger] footpaths[j], j as nat) is Ok;
            assert(footpath_edge(index, footpaths[i], i as nat) == Err::<FootpathEdge, Fault>(
                fault,
            ));
        }
    }
}

/// Whether an array footpath has an amount of meters and ends at positions
/// within the stops.
pub open spec fn joins_stops(stops: Seq<u32>, arrays: FootpathArrays, i: int) -> bool {
    f64_is_cost(arrays.meters@[i]) && arrays.from_index@[i] < stops.len() && arrays.to_index@[i]
        < stops.len()
}

/// Array footpaths are taken exactly where the columns are equally long,
/// every length is an amount and every position is within the stops; each
/// then joins the stops at its positions with its own seconds and meters.
pub proof fn law_array_footpaths_index_the_stops(stops: Seq<u32>, arrays: FootpathArrays)
    ensures
        array_outcome(stops, arrays) matches Ok(edges) ==> {
            &&& arrays.to_index@.len() == arrays.from_index@.len()
            &&& arrays.seconds@.len() == arrays.from_index@.len()
            &&& arrays.meters@.len() == arrays.from_index@.len()
            &&& edges.len() == arrays.from_index@.len()
            &&& forall|i: int|
                0 <= i < edges.len() ==> #[trigger] joins_stops(stops, arrays, i)
            &&& forall|i: int|
                0 <= i < edges.len() ==> (#[trigger] edges[i]).from
                    == stops[arrays.from_index@[i] as int] && edges[i].to
                    == stops[arrays.to_index@[i] as int] && edges[i].seconds == arrays.seconds@[i]
                    && edges[i].meters == arrays.meters@[i]
        },
        array_outcome(stops, arrays) is Err ==> {
            ||| arrays.to_index@.len() != arrays.from_index@.len()
            ||| arrays.seconds@.len() != arrays.from_index@.len()
            ||| arrays.meters@.len() != arrays.from_index@.len()
            ||| exists|i: int|
                0 <= i < arrays.from_index@.len() && !#[trigger] joins_stops(stops, arrays, i)
        },
{
    lemma_array_edges(stops, arrays, arrays.from_index@.len() as int);
}

proof fn lemma_array_edges(stops: Seq<u32>, arrays: FootpathArrays, count: int)
    requires
        0 <= count <= arrays.from_index@.len(),
    ensures
        array_edges(stops, arrays, count) is Err ==> exists|i: int|
            0 <= i < count && !#[trigger] joins_stops(stops, arrays, i),
        array_edges(stops, arrays, count) matches Ok(edges) ==> edges.len() == count && (forall|
            i: int,
        |
            0 <= i < count ==> #[trigger] joins_stops(stops, arrays, i)) && forall|i: int|
            0 <= i < count ==> (#[trigger] edges[i]).from == stops[arrays.from_index@[i] as int]
                && edges[i].to == stops[arrays.to_index@[i] as int] && edges[i].seconds
                == arrays.seconds@[i] && edges[i].meters == arrays.meters@[i],
    decreases count,
{
    if count > 0 {
        lemma_array_edges(stops, arrays, count - 1);
        assert(joins_stops(stops, arrays, count - 1) <==> array_edge(
            stops,
            arrays,
            count - 1,
        ) is Ok);
    }
}

/// A pair's key holds its first stop above its second.
pub proof fn law_pair_keys_hold_both_stops(from: u32, to: u32)
    ensures
        pair_key(from, to) / 0x1_0000_0000 == from,
        pair_key(from, to) % 0x1_0000_0000 == to,
{
}

/// An edge is ridden exactly where its stop pair has a ride, in that
/// direction, for that ride's meters.
pub proof fn law_edges_ride_their_own_pair(
    rows: TransferRows,
    rides: Map<u64, u64>,
    flags: Seq<bool>,
    meters: Seq<u64>,
    stop: int,
    slot: int,
)
    requires
        rides_aligned(rows, rides, flags, meters),
        0 <= stop < rows.offsets@.len() - 1,
        stop <= u32::MAX,
        rows.offsets@[stop] <= slot < rows.offsets@[stop + 1],
    ensures
        ({
            let key = (stop * 0x1_0000_0000 + rows.edges@[slot].to) as u64;
            &&& flags.len() == rows.edges@.len()
            &&& meters.len() == rows.edges@.len()
            &&& flags[slot] <==> rides.contains_key(key)
            &&& rides.contains_key(key) ==> meters[slot] == rides[key]
            &&& !rides.contains_key(key) ==> meters[slot] == 0
        }),
{
    assert(in_row(rows, stop, slot));
}

proof fn lemma_listed_edges(rows: TransferRows, ids: NetworkIds, stop: int)
    requires
        rows.wf(ids.stops@.len()),
        0 <= stop <= ids.stops@.len(),
    ensures
        listed_edges(rows, ids, stop).len() == rows.offsets@[stop],
    decreases stop,
{
    if stop > 0 {
        lemma_listed_edges(rows, ids, stop - 1);
    }
}

/// The listed edges are the network's, slot by slot: each has the public ids
/// of the stop whose row it lies in and of the stop it leads to, and its own
/// seconds and meters.
pub proof fn law_listed_edges_are_the_slots(
    rows: TransferRows,
    ids: NetworkIds,
    until: int,
    stop: int,
    slot: int,
)
    requires
        rows.wf(ids.stops@.len()),
        0 <= stop < until <= ids.stops@.len(),
        rows.offsets@[stop] <= slot < rows.offsets@[stop + 1],
    ensures
        listed_edges(rows, ids, until).len() == rows.offsets@[until],
        ({
            let edge = listed_edges(rows, ids, until)[slot];
            &&& edge.0 == ids.stop_text(stop as u32)
            &&& edge.1 == ids.stop_text(rows.edges@[slot].to)
            &&& edge.2 == rows.edges@[slot].seconds
            &&& edge.3 == rows.edges@[slot].meters
        }),
    decreases until,
{
    lemma_listed_edges(rows, ids, until);
    lemma_listed_edges(rows, ids, until - 1);
    if stop < until - 1 {
        law_listed_edges_are_the_slots(rows, ids, until - 1, stop, slot);
        assert(rows.offsets@[stop + 1] <= rows.offsets@[until - 1]);
    }
}

/// Whether two snaps meet the graph at one place.
pub open spec fn meets_at(link: Snap, snap: Snap) -> bool {
    link == snap || link.edge == snap.edge && f64_equal(link.fraction, snap.fraction)
}

/// Whether a link stands at a snap's place and bears a mode.
pub open spec fn bears(link: (Snap, u8), snap: Snap, bit: u8) -> bool {
    meets_at(link.0, snap) && link.1 & bit == bit
}

/// Whether some mode among the first snaps at a link's place shares a bit.
pub open spec fn borne_by_snap(
    snaps: Seq<(Option<Snap>, u8)>,
    count: int,
    link: Snap,
    bit: u8,
) -> bool {
    exists|i: int|
        0 <= i < count && (#[trigger] snaps[i]).0 is Some && meets_at(link, snaps[i].0->0)
            && snaps[i].1 & bit != 0
}

proof fn lemma_linked_at(links: Seq<(Snap, u8)>, snap: Snap, from: int)
    requires
        0 <= from <= links.len(),
    ensures
        from <= linked_at(links, snap, from) <= links.len(),
        linked_at(links, snap, from) < links.len() ==> links[linked_at(links, snap, from)].0.edge
            == snap.edge && f64_equal(
            links[linked_at(links, snap, from)].0.fraction,
            snap.fraction,
        ),
        forall|k: int|
            from <= k < linked_at(links, snap, from) ==> !((#[trigger] links[k]).0.edge == snap.edge
                && f64_equal(links[k].0.fraction, snap.fraction)),
    decreases links.len() - from,
{
    if from < links.len() && !(links[from].0.edge == snap.edge && f64_equal(
        links[from].0.fraction,
        snap.fraction,
    )) {
        lemma_linked_at(links, snap, from + 1);
    }
}

proof fn lemma_bits(held: u8, added: u8, other: u8)
    ensures
        (held | added) & added == added,
        held & other == other ==> (held | added) & other == other,
        (held | added) & other != 0 ==> held & other != 0 || added & other != 0,
{
    assert((held | added) & added == added) by (bit_vector);
    assert(held & other == other ==> (held | added) & other == other) by (bit_vector);
    assert((held | added) & other != 0 ==> held & other != 0 || added & other != 0) by (bit_vector);
}

/// The links of a stop bear every mode at the place it snapped to, and bear no
/// mode that did not snap there.
pub proof fn law_links_bear_the_modes_that_snap(
    snaps: Seq<(Option<Snap>, u8)>,
    count: int,
    bit: u8,
)
    requires
        0 <= count <= snaps.len(),
    ensures
        forall|i: int|
            0 <= i < count && (#[trigger] snaps[i]).0 is Some ==> exists|k: int|
                0 <= k < links_upto(snaps, count).len() && bears(
                    #[trigger] links_upto(snaps, count)[k],
                    snaps[i].0->0,
                    snaps[i].1,
                ),
        forall|k: int|
            0 <= k < links_upto(snaps, count).len() && (#[trigger] links_upto(snaps, count)[k]).1
                & bit != 0 ==> borne_by_snap(snaps, count, links_upto(snaps, count)[k].0, bit),
    decreases count,
{
    if count > 0 {
        law_links_bear_the_modes_that_snap(snaps, count - 1, bit);
        let before = links_upto(snaps, count - 1);
        let after = links_upto(snaps, count);
        if let Some(snap) = snaps[count - 1].0 {
            let added = snaps[count - 1].1;
            let at = linked_at(before, snap, 0);
            lemma_linked_at(before, snap, 0);
            assert forall|i: int| 0 <= i < count && (#[trigger] snaps[i]).0 is Some implies exists|
                k: int,
            |
                0 <= k < after.len() && bears(
                    #[trigger] after[k],
                    snaps[i].0->0,
                    snaps[i].1,
                ) by {
                if i < count - 1 {
                    let k = choose|k: int|
                        0 <= k < before.len() && bears(
                            #[trigger] before[k],
                            snaps[i].0->0,
                            snaps[i].1,
                        );
                    lemma_bits(before[k].1, added, snaps[i].1);
                    assert(bears(after[k], snaps[i].0->0, snaps[i].1));
                } else if at < before.len() {
                    lemma_bits(before[at].1, added, added);
                    assert(bears(after[at], snap, added));
                } else {
                    assert(added & added == added) by (bit_vector);
                    assert(bears(after[before.len() as int], snap, added));
                }
            }
            assert forall|k: int|
                0 <= k < after.len() && (#[trigger] after[k]).1 & bit
                    != 0 implies borne_by_snap(snaps, count, after[k].0, bit) by {
                if k < before.len() && (k != at || before[k].1 & bit != 0) {
                    assert(before[k].1 & bit != 0);
                    assert(borne_by_snap(snaps, count - 1, before[k].0, bit));
                    let i = choose|i: int|
                        0 <= i < count - 1 && (#[trigger] snaps[i]).0 is Some && meets_at(
                            before[k].0,
                            snaps[i].0->0,
                        ) && snaps[i].1 & bit != 0;
                    assert(snaps[i].0 is Some);
                } else {
                    if k < before.len() {
                        lemma_bits(before[k].1, added, bit);
                    }
                    assert(snaps[count - 1].0 is Some);
                    assert(meets_at(after[k].0, snap));
                    assert(snaps[count - 1].1 & bit != 0);
                }
            }
        } else {
            assert forall|k: int|
                0 <= k < after.len() && (#[trigger] after[k]).1 & bit
                    != 0 implies borne_by_snap(snaps, count, after[k].0, bit) by {
                assert(borne_by_snap(snaps, count - 1, before[k].0, bit));
                let i = choose|i: int|
                    0 <= i < count - 1 && (#[trigger] snaps[i]).0 is Some && meets_at(
                        before[k].0,
                        snaps[i].0->0,
                    ) && snaps[i].1 & bit != 0;
                assert(snaps[i].0 is Some);
            }
        }
    }
}

/// No two links of a stop stand at one place.
pub proof fn law_links_stand_apart(snaps: Seq<(Option<Snap>, u8)>, count: int, j: int, k: int)
    requires
        0 <= count <= snaps.len(),
        0 <= j < k < links_upto(snaps, count).len(),
    ensures
        !(links_upto(snaps, count)[j].0.edge == links_upto(snaps, count)[k].0.edge && f64_equal(
            links_upto(snaps, count)[j].0.fraction,
            links_upto(snaps, count)[k].0.fraction,
        )),
    decreases count,
{
    let before = links_upto(snaps, count - 1);
    if k < before.len() {
        law_links_stand_apart(snaps, count - 1, j, k);
    }
    if let Some(snap) = snaps[count - 1].0 {
        lemma_linked_at(before, snap, 0);
    }
}

/// A mode meets the graph at the first of a stop's links that bears it, and
/// nowhere where none does.
pub proof fn law_modes_meet_at_their_first_link(links: Seq<(Snap, u8)>, bit: u8, at: int)
    requires
        0 <= at <= links.len(),
        forall|k: int| 0 <= k < at ==> (#[trigger] links[k]).1 & bit == 0,
        at < links.len() ==> links[at].1 & bit != 0,
    ensures
        at < links.len() ==> mode_link(links, bit, 0) == Some(links[at].0),
        at == links.len() ==> mode_link(links, bit, 0) is None,
{
    lemma_first_link(links, bit, 0, at);
}

proof fn lemma_first_link(links: Seq<(Snap, u8)>, bit: u8, from: int, at: int)
    requires
        0 <= from <= at <= links.len(),
        forall|k: int| from <= k < at ==> (#[trigger] links[k]).1 & bit == 0,
        at < links.len() ==> links[at].1 & bit != 0,
    ensures
        mode_link(links, bit, from) == if at < links.len() {
            Some(links[at].0)
        } else {
            None
        },
    decreases at - from,
{
    if from < at {
        assert(links[from].1 & bit == 0);
        lemma_first_link(links, bit, from + 1, at);
    }
}

/// A stop with a link at the query's own coordinate costs nothing, where the
/// budget admits anything at all; every other stop keeps its cell.
pub proof fn law_only_coincident_stops_are_zeroed<T>(
    row: Seq<Option<T>>,
    zero: T,
    links: Seq<Option<Snap>>,
    stops: Seq<Option<(u64, u64)>>,
    at: (u64, u64),
    max_seconds: u64,
    i: int,
)
    requires
        0 <= i < row.len(),
    ensures
        ({
            let made = zeroed(row, zero, links, stops, at, max_seconds);
            let here = f64_is_cost(max_seconds) && links[i] is Some && stops[i] is Some
                && f64_equal((stops[i]->0).0, at.0) && f64_equal((stops[i]->0).1, at.1);
            &&& made.len() == row.len()
            &&& here ==> made[i] == Some(zero)
            &&& !here ==> made[i] == row[i]
        }),
{
}

/// The rows of stops are those both reached and linked, once each, in stop
/// order, with their seconds and links.
pub proof fn law_stop_rows_are_reached_and_linked(
    row: Seq<Option<u32>>,
    links: Seq<Option<Snap>>,
    count: int,
)
    requires
        0 <= count <= row.len() <= u32::MAX,
        row.len() == links.len(),
    ensures
        ({
            let rows = stop_rows_upto(row, links, count);
            &&& forall|s: int|
                0 <= s < count && #[trigger] row[s] is Some && links[s] is Some ==> rows.contains(
                    (s as u32, row[s]->0, links[s]->0),
                )
            &&& forall|k: int|
                0 <= k < rows.len() ==> (#[trigger] rows[k]).0 < count && row[rows[k].0 as int]
                    == Some(rows[k].1) && links[rows[k].0 as int] == Some(rows[k].2)
            &&& forall|j: int, k: int|
                0 <= j < k < rows.len() ==> (#[trigger] rows[j]).0 < (#[trigger] rows[k]).0
        }),
    decreases count,
{
    if count > 0 {
        law_stop_rows_are_reached_and_linked(row, links, count - 1);
        let before = stop_rows_upto(row, links, count - 1);
        let rows = stop_rows_upto(row, links, count);
        assert forall|s: int|
            0 <= s < count && #[trigger] row[s] is Some && links[s] is Some implies rows.contains(
            (s as u32, row[s]->0, links[s]->0),
        ) by {
            let entry = (s as u32, row[s]->0, links[s]->0);
            if s < count - 1 {
                assert(before.contains(entry));
                let at = choose|at: int| 0 <= at < before.len() && before[at] == entry;
                assert(rows[at] == entry);
            } else {
                assert(rows[rows.len() - 1] == entry);
            }
        }
    }
}

} // verus!
