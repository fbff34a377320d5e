//! The value tier of street validation: the arrays read back from the
//! STREETS section and held against each other, so that a corrupted artifact
//! fails its load instead of a later query.

use crate::bytes::{
    f32_is_cost, f64_equal, f64_is_cost, equal, is_cost, is_cost_f32, le_value, read_le,
};
use crate::container::{corrupted, corrupted_text};
use crate::street_arrays::{
    ArrayDescriptor, AttributeModel, CarAttributes, CarModel, Pattern, StoredLink, StreetArray,
    StreetAttributes, StreetModel, StreetNetworkParts, OPTIONAL_STREET_ARRAY_ORDER,
    STREET_ARRAY_ORDER,
};
use crate::street_shape::{
    core_in_order, counts_consistent, extent_end, find_array, find_descriptor, laid_out,
    optional_in_order, optional_rank, shape_fault, StreetsMeta,
};
use crate::text::ValueError;
use vstd::prelude::*;

verus! {

/// A table whose optional arrays, wherever they stand in it, are of their
/// right kinds and lie inside a section of that length.
pub open spec fn optional_readable(descriptors: Seq<ArrayDescriptor>, section_length: nat) -> bool {
    forall|i: int|
        #![trigger descriptors[i]]
        0 <= i < descriptors.len() && optional_rank(descriptors[i].array) < 9 ==> {
            &&& descriptors[i].kind == OPTIONAL_STREET_ARRAY_ORDER@[optional_rank(
                descriptors[i].array,
            )].1
            &&& extent_end(descriptors[i]) <= section_length
        }
}

/// A table in its canonical order has its optional arrays readable, where
/// every array lies inside the section.
pub proof fn lemma_ordered_table_is_readable(
    descriptors: Seq<ArrayDescriptor>,
    section_length: nat,
)
    requires
        core_in_order(descriptors),
        optional_in_order(descriptors),
        forall|i: int|
            #![trigger descriptors[i]]
            0 <= i < descriptors.len() ==> extent_end(descriptors[i]) <= section_length,
    ensures
        optional_readable(descriptors, section_length),
{
    assert forall|i: int|
        #![trigger descriptors[i]]
        0 <= i < descriptors.len() && optional_rank(descriptors[i].array) < 9 implies 13 <= i by {
        if i < 13 {
            assert(descriptors[i].array == STREET_ARRAY_ORDER@[i].0);
            assert(optional_rank(STREET_ARRAY_ORDER@[i].0) == 9);
        }
    }
}

/// Whether the shape tier accepts this layer inside a section of that
/// length, for some block start and stop count.
pub open spec fn shape_accepted(
    vertex_count: u32,
    links: Seq<StoredLink>,
    descriptors: Seq<ArrayDescriptor>,
    section_length: nat,
) -> bool {
    exists|start: nat, stop_count: u32|
        #[trigger] shape_fault(
            vertex_count,
            links,
            descriptors,
            start,
            section_length,
            stop_count,
        ) is None
}

/// The values of a stored array.
pub open spec fn array_values<T: Pattern>(section: Seq<u8>, descriptor: ArrayDescriptor) -> Seq<T> {
    Seq::new(
        descriptor.count as nat,
        |i: int|
            T::of_pattern(
                le_value(
                    section.subrange(
                        descriptor.offset + i * T::width(),
                        descriptor.offset + (i + 1) * T::width(),
                    ),
                ),
            ),
    )
}

/// The values of an array located by identity, if it is stored.
pub open spec fn optional_values<T: Pattern>(
    section: Seq<u8>,
    descriptors: Seq<ArrayDescriptor>,
    array: StreetArray,
) -> Option<Seq<T>> {
    match find_array(descriptors, array, 0) {
        Some(at) => Some(array_values::<T>(section, descriptors[at])),
        None => None,
    }
}

/// The attribute group, where all six arrays are stored.
pub open spec fn decoded_attributes(
    section: Seq<u8>,
    descriptors: Seq<ArrayDescriptor>,
) -> Option<AttributeModel> {
    match (
        optional_values::<u8>(section, descriptors, StreetArray::AdjAccess),
        optional_values::<u8>(section, descriptors, StreetArray::AdjFacility),
        optional_values::<u8>(section, descriptors, StreetArray::EdgeHighway),
        optional_values::<u8>(section, descriptors, StreetArray::EdgeSurface),
        optional_values::<u8>(section, descriptors, StreetArray::EdgeSmoothness),
        optional_values::<u16>(section, descriptors, StreetArray::EdgeFlags),
    ) {
        (
            Some(adj_access),
            Some(adj_facility),
            Some(edge_highway),
            Some(edge_surface),
            Some(edge_smoothness),
            Some(edge_flags),
        ) => Some(
            AttributeModel {
                adj_access,
                adj_facility,
                edge_highway,
                edge_surface,
                edge_smoothness,
                edge_flags,
            },
        ),
        _ => None,
    }
}

/// The car group, where both arrays are stored.
pub open spec fn decoded_car(section: Seq<u8>, descriptors: Seq<ArrayDescriptor>) -> Option<
    CarModel,
> {
    match (
        optional_values::<u32>(section, descriptors, StreetArray::AdjCarSpeed),
        optional_values::<u8>(section, descriptors, StreetArray::AdjJunction),
    ) {
        (Some(adj_car_speed), Some(adj_junction)) => Some(CarModel { adj_car_speed, adj_junction }),
        _ => None,
    }
}

/// The network that a section holds under a descriptor table.
pub open spec fn decoded(
    vertex_count: u32,
    links: Seq<StoredLink>,
    descriptors: Seq<ArrayDescriptor>,
    section: Seq<u8>,
) -> StreetModel {
    StreetModel {
        vertex_count,
        adjacency_offsets: array_values::<u32>(section, descriptors[0]),
        adj_targets: array_values::<u32>(section, descriptors[1]),
        adj_meters: array_values::<u64>(section, descriptors[2]),
        adj_edges: array_values::<u32>(section, descriptors[3]),
        endpoints: array_values::<u32>(section, descriptors[4]),
        lengths: array_values::<u64>(section, descriptors[5]),
        coordinate_offsets: array_values::<u32>(section, descriptors[6]),
        lons: array_values::<i32>(section, descriptors[7]),
        lats: array_values::<i32>(section, descriptors[8]),
        cumulative: array_values::<u32>(section, descriptors[9]),
        index_boxes: array_values::<i32>(section, descriptors[10]),
        index_payload: array_values::<u32>(section, descriptors[11]),
        index_level_starts: array_values::<u32>(section, descriptors[12]),
        links,
        attributes: decoded_attributes(section, descriptors),
        car: decoded_car(section, descriptors),
        elevations: optional_values::<u32>(
            section,
            descriptors,
            StreetArray::CoordinateElevations,
        ),
    }
}

/// Row offsets: from zero, never falling, to exactly the slot count.
pub open spec fn adjacency_offsets_hold(streets: StreetModel) -> bool {
    let offsets = streets.adjacency_offsets;
    &&& offsets.len() > 0
    &&& offsets[0] == 0
    &&& forall|i: int, j: int| 0 <= i <= j < offsets.len() ==> offsets[i] <= offsets[j]
    &&& offsets.last() == streets.adj_targets.len()
}

/// An edge has at least two coordinates.
pub open spec fn spans_two(offsets: Seq<u32>, edge: int) -> bool {
    offsets[edge] + 2 <= offsets[edge + 1]
}

/// Coordinate offsets: from zero, at least two coordinates per edge, to
/// exactly the coordinate count.
pub open spec fn coordinate_offsets_hold(streets: StreetModel) -> bool {
    let offsets = streets.coordinate_offsets;
    &&& offsets.len() > 0
    &&& offsets[0] == 0
    &&& forall|edge: int| 0 <= edge < offsets.len() - 1 ==> #[trigger] spans_two(offsets, edge)
    &&& offsets.last() == streets.lons.len()
}

/// Every stored id names an element that exists.
pub open spec fn all_below(ids: Seq<u32>, limit: nat) -> bool {
    forall|i: int| #![trigger ids[i]] 0 <= i < ids.len() ==> ids[i] < limit
}

pub open spec fn references_hold(streets: StreetModel) -> bool {
    &&& all_below(streets.adj_targets, streets.vertex_count as nat)
    &&& all_below(streets.adj_edges, streets.lengths.len())
    &&& all_below(streets.endpoints, streets.vertex_count as nat)
}

/// The row that a slot belongs to, looking from row `from` on.
pub open spec fn row_of(offsets: Seq<u32>, slot: int, from: int) -> int
    decreases offsets.len() - from,
{
    if from + 1 >= offsets.len() || slot < offsets[from + 1] {
        from
    } else {
        row_of(offsets, slot, from + 1)
    }
}

/// The vertex whose adjacency row a slot stands in.
pub open spec fn source(streets: StreetModel, slot: int) -> int {
    row_of(streets.adjacency_offsets, slot, 0)
}

/// A slot runs along its edge from the first endpoint to the second …
pub open spec fn runs_forward(streets: StreetModel, slot: int) -> bool {
    let edge = streets.adj_edges[slot] as int;
    source(streets, slot) == streets.endpoints[2 * edge] && streets.adj_targets[slot]
        == streets.endpoints[2 * edge + 1]
}

/// … or from the second to the first.
pub open spec fn runs_backward(streets: StreetModel, slot: int) -> bool {
    let edge = streets.adj_edges[slot] as int;
    source(streets, slot) == streets.endpoints[2 * edge + 1] && streets.adj_targets[slot]
        == streets.endpoints[2 * edge]
}

/// A slot restates its edge's endpoints and cost.
pub open spec fn restates(streets: StreetModel, slot: int) -> bool {
    &&& runs_forward(streets, slot) || runs_backward(streets, slot)
    &&& f64_equal(streets.adj_meters[slot], streets.lengths[streets.adj_edges[slot] as int])
}

/// How many of the first `slots` slots run forward along an edge.
pub open spec fn forward_slots(streets: StreetModel, edge: int, slots: int) -> nat
    decreases slots,
{
    if slots <= 0 {
        0
    } else if streets.adj_edges[slots - 1] == edge && runs_forward(streets, slots - 1) {
        forward_slots(streets, edge, slots - 1) + 1
    } else {
        forward_slots(streets, edge, slots - 1)
    }
}

pub open spec fn backward_slots(streets: StreetModel, edge: int, slots: int) -> nat
    decreases slots,
{
    if slots <= 0 {
        0
    } else if streets.adj_edges[slots - 1] == edge && runs_backward(streets, slots - 1) {
        backward_slots(streets, edge, slots - 1) + 1
    } else {
        backward_slots(streets, edge, slots - 1)
    }
}

pub open spec fn is_loop(streets: StreetModel, edge: int) -> bool {
    streets.endpoints[2 * edge] == streets.endpoints[2 * edge + 1]
}

/// An undirected edge appears once per direction; a loop's two rows are the
/// same both ways.
pub open spec fn appears_both_ways(streets: StreetModel, edge: int) -> bool {
    let slots = streets.adj_edges.len() as int;
    if is_loop(streets, edge) {
        forward_slots(streets, edge, slots) == 2
    } else {
        forward_slots(streets, edge, slots) == 1 && backward_slots(streets, edge, slots) == 1
    }
}

/// The adjacency rows are a faithful view of the edge list, not merely in
/// range.
pub open spec fn rows_hold(streets: StreetModel) -> bool {
    &&& forall|slot: int|
        0 <= slot < streets.adj_edges.len() ==> #[trigger] restates(streets, slot)
    &&& forall|edge: int|
        0 <= edge < streets.lengths.len() ==> #[trigger] appears_both_ways(streets, edge)
}

pub open spec fn all_costs(values: Seq<u64>) -> bool {
    forall|i: int| #![trigger values[i]] 0 <= i < values.len() ==> f64_is_cost(values[i])
}

pub open spec fn all_costs_f32(values: Seq<u32>) -> bool {
    forall|i: int| #![trigger values[i]] 0 <= i < values.len() ==> f32_is_cost(values[i])
}

pub open spec fn costs_hold(streets: StreetModel) -> bool {
    &&& all_costs(streets.adj_meters)
    &&& all_costs(streets.lengths)
    &&& all_costs_f32(streets.cumulative)
}

/// Leaf `leaf` of the index: its edge and its segment's first coordinate.
pub open spec fn leaf_edge(streets: StreetModel, leaf: int) -> int {
    streets.index_payload[2 * leaf] as int
}

pub open spec fn leaf_segment(streets: StreetModel, leaf: int) -> int {
    streets.index_payload[2 * leaf + 1] as int
}

/// A leaf names a consecutive coordinate pair of its edge.
pub open spec fn leaf_holds(streets: StreetModel, leaf: int) -> bool {
    let edge = leaf_edge(streets, leaf);
    let segment = leaf_segment(streets, leaf);
    &&& edge < streets.lengths.len()
    &&& streets.coordinate_offsets[edge] <= segment
    &&& segment + 1 < streets.coordinate_offsets[edge + 1]
}

/// Every leaf names a segment, and no two the same one.
pub open spec fn payloads_hold(streets: StreetModel) -> bool {
    let leaves = streets.index_payload.len() / 2;
    &&& forall|leaf: int| 0 <= leaf < leaves ==> #[trigger] leaf_holds(streets, leaf)
    &&& forall|left: int, right: int|
        0 <= left < right < leaves ==> #[trigger] leaf_segment(streets, left)
            != #[trigger] leaf_segment(streets, right)
}

/// Links restate their edges' endpoints, since the vertex index is rebuilt
/// from them.
pub open spec fn links_hold(streets: StreetModel) -> bool {
    forall|i: int|
        #![trigger streets.links[i]]
        0 <= i < streets.links.len() ==> {
            let edge = streets.links[i].edge as int;
            streets.links[i].from == streets.endpoints[2 * edge] && streets.links[i].to
                == streets.endpoints[2 * edge + 1]
        }
}

/// What is wrong with a decoded network, if anything: the first of the
/// findings, in the order a load reports them.
pub open spec fn value_fault(streets: StreetModel, expected_levels: Seq<u32>) -> Option<Seq<char>> {
    if !adjacency_offsets_hold(streets) {
        Some("street adjacency offsets"@)
    } else if !coordinate_offsets_hold(streets) {
        Some("street coordinate offsets"@)
    } else if !references_hold(streets) {
        Some("street graph references"@)
    } else if !rows_hold(streets) {
        Some("street adjacency rows"@)
    } else if !costs_hold(streets) {
        Some("street costs"@)
    } else if streets.index_level_starts != expected_levels {
        Some("street index shape"@)
    } else if !payloads_hold(streets) {
        Some("street index payloads"@)
    } else if !links_hold(streets) {
        Some("street link records"@)
    } else {
        None
    }
}

fn read_array<T: Pattern>(section: &[u8], descriptor: &ArrayDescriptor) -> (values: Vec<T>)
    requires
        descriptor.kind.width() == T::width(),
        extent_end(*descriptor) <= section@.len(),
    ensures
        values@ == array_values::<T>(section@, *descriptor),
{
    let length: usize = section.len();
    let mut values: Vec<T> = Vec::new();
    let width: usize = descriptor.kind.size() as usize;
    proof {
        let count = descriptor.count as int;
        assert(count <= count * width) by (nonlinear_arith)
            requires
                width >= 1,
                count >= 0,
        ;
    }
    let count: usize = descriptor.count as usize;
    let mut index: usize = 0;
    let mut at: usize = descriptor.offset as usize;
    proof {
        assert(0 * width as int == 0) by (nonlinear_arith);
    }
    while index < count
        invariant
            index <= count == descriptor.count,
            length == section@.len(),
            1 <= width <= 8,
            width == T::width(),
            at == descriptor.offset + index * width,
            extent_end(*descriptor) <= length,
            extent_end(*descriptor) == descriptor.offset + count * width,
            values@ == array_values::<T>(section@, *descriptor).subrange(0, index as int),
        decreases count - index,
    {
        proof {
            assert((index + 1) * width == index * width + width && (index + 1) * width <= count
                * width) by (nonlinear_arith)
                requires
                    index < count,
            ;
        }
        let bits: u64 = read_le(section, at, width);
        values.push(T::from_bits(bits));
        at += width;
        index += 1;
        assert(values@ =~= array_values::<T>(section@, *descriptor).subrange(0, index as int));
    }
    assert(values@ =~= array_values::<T>(section@, *descriptor));
    values
}

fn read_optional<T: Pattern>(
    section: &[u8],
    descriptors: &[ArrayDescriptor],
    array: StreetArray,
) -> (values: Option<Vec<T>>)
    requires
        optional_readable(descriptors@, section@.len()),
        optional_rank(array) < 9,
        OPTIONAL_STREET_ARRAY_ORDER@[optional_rank(array)].1.width() == T::width(),
    ensures
        match values {
            Some(values) => optional_values::<T>(section@, descriptors@, array) == Some(values@),
            None => optional_values::<T>(section@, descriptors@, array) is None,
        },
{
    match find_descriptor(descriptors, array, 0) {
        Some(at) => Some(read_array::<T>(section, &descriptors[at])),
        None => None,
    }
}

/// Reads the optional multimodal arrays owned, located by descriptor
/// identity — shared by the owned decode and the mapped load, which also
/// keeps them owned. `section` is the whole STREETS section.
pub fn decode_optional_street_arrays(section: &[u8], descriptors: &[ArrayDescriptor]) -> (optional:
    (Option<StreetAttributes>, Option<CarAttributes>, Option<Vec<u32>>))
    requires
        optional_readable(descriptors@, section@.len()),
    ensures
        match optional.0 {
            Some(attributes) => decoded_attributes(section@, descriptors@) == Some(attributes@),
            None => decoded_attributes(section@, descriptors@) is None,
        },
        match optional.1 {
            Some(car) => decoded_car(section@, descriptors@) == Some(car@),
            None => decoded_car(section@, descriptors@) is None,
        },
        match optional.2 {
            Some(elevations) => optional_values::<u32>(
                section@,
                descriptors@,
                StreetArray::CoordinateElevations,
            ) == Some(elevations@),
            None => optional_values::<u32>(
                section@,
                descriptors@,
                StreetArray::CoordinateElevations,
            ) is None,
        },
{
    let attributes = match (
        read_optional::<u8>(section, descriptors, StreetArray::AdjAccess),
        read_optional::<u8>(section, descriptors, StreetArray::AdjFacility),
        read_optional::<u8>(section, descriptors, StreetArray::EdgeHighway),
        read_optional::<u8>(section, descriptors, StreetArray::EdgeSurface),
        read_optional::<u8>(section, descriptors, StreetArray::EdgeSmoothness),
        read_optional::<u16>(section, descriptors, StreetArray::EdgeFlags),
    ) {
        (
            Some(adj_access),
            Some(adj_facility),
            Some(edge_highway),
            Some(edge_surface),
            Some(edge_smoothness),
            Some(edge_flags),
        ) => Some(
            StreetAttributes {
                adj_access,
                adj_facility,
                edge_highway,
                edge_surface,
                edge_smoothness,
                edge_flags,
            },
        ),
        _ => None,
    };
    let car = match (
        read_optional::<u32>(section, descriptors, StreetArray::AdjCarSpeed),
        read_optional::<u8>(section, descriptors, StreetArray::AdjJunction),
    ) {
        (Some(adj_car_speed), Some(adj_junction)) => Some(
            CarAttributes { adj_car_speed, adj_junction },
        ),
        _ => None,
    };
    let elevations = read_optional::<u32>(
        section,
        descriptors,
        StreetArray::CoordinateElevations,
    );
    (attributes, car, elevations)
}

/// Whether a byte belongs to one of a table's optional arrays.
pub open spec fn in_optional_array(descriptors: Seq<ArrayDescriptor>, byte: int) -> bool {
    exists|i: int|
        #![trigger descriptors[i]]
        0 <= i < descriptors.len() && optional_rank(descriptors[i].array) < 9
            && descriptors[i].offset <= byte < extent_end(descriptors[i])
}

proof fn lemma_found_array(descriptors: Seq<ArrayDescriptor>, array: StreetArray, from: int)
    requires
        0 <= from,
    ensures
        find_array(descriptors, array, from) matches Some(at) ==> from <= at < descriptors.len()
            && descriptors[at].array == array,
    decreases descriptors.len() - from,
{
    if from < descriptors.len() && descriptors[from].array != array {
        lemma_found_array(descriptors, array, from + 1);
    }
}

proof fn lemma_same_values<T: Pattern>(
    left: Seq<u8>,
    right: Seq<u8>,
    descriptors: Seq<ArrayDescriptor>,
    array: StreetArray,
)
    requires
        left.len() == right.len(),
        optional_readable(descriptors, left.len()),
        forall|byte: int|
            0 <= byte < left.len() && in_optional_array(descriptors, byte) ==> left[byte]
                == right[byte],
        optional_rank(array) < 9,
        OPTIONAL_STREET_ARRAY_ORDER@[optional_rank(array)].1.width() == T::width(),
    ensures
        optional_values::<T>(left, descriptors, array) == optional_values::<T>(
            right,
            descriptors,
            array,
        ),
{
    lemma_found_array(descriptors, array, 0);
    if let Some(at) = find_array(descriptors, array, 0) {
        let descriptor = descriptors[at];
        let width = T::width() as int;
        let offset = descriptor.offset as int;
        let count = descriptor.count as int;
        let ours = array_values::<T>(left, descriptor);
        let theirs = array_values::<T>(right, descriptor);
        assert forall|i: int| 0 <= i < count implies ours[i] == theirs[i] by {
            assert(0 <= i * width && (i + 1) * width == i * width + width && (i + 1) * width
                <= count * width) by (nonlinear_arith)
                requires
                    0 <= i < count,
                    0 <= width,
            ;
            let here = left.subrange(offset + i * width, offset + (i + 1) * width);
            let there = right.subrange(offset + i * width, offset + (i + 1) * width);
            assert forall|k: int| 0 <= k < width implies here[k] == there[k] by {
                assert(in_optional_array(descriptors, offset + i * width + k));
            }
            assert(here =~= there);
        }
        assert(ours =~= theirs);
    }
}

/// Bytes outside the optional arrays never matter to what is read of them.
pub proof fn law_optional_bytes_alone_matter(
    left: Seq<u8>,
    right: Seq<u8>,
    descriptors: Seq<ArrayDescriptor>,
)
    requires
        left.len() == right.len(),
        optional_readable(descriptors, left.len()),
        forall|byte: int|
            0 <= byte < left.len() && in_optional_array(descriptors, byte) ==> left[byte]
                == right[byte],
    ensures
        decoded_attributes(left, descriptors) == decoded_attributes(right, descriptors),
        decoded_car(left, descriptors) == decoded_car(right, descriptors),
        optional_values::<u32>(left, descriptors, StreetArray::CoordinateElevations)
            == optional_values::<u32>(right, descriptors, StreetArray::CoordinateElevations),
{
    lemma_same_values::<u8>(left, right, descriptors, StreetArray::AdjAccess);
    lemma_same_values::<u8>(left, right, descriptors, StreetArray::AdjFacility);
    lemma_same_values::<u8>(left, right, descriptors, StreetArray::EdgeHighway);
    lemma_same_values::<u8>(left, right, descriptors, StreetArray::EdgeSurface);
    lemma_same_values::<u8>(left, right, descriptors, StreetArray::EdgeSmoothness);
    lemma_same_values::<u16>(left, right, descriptors, StreetArray::EdgeFlags);
    lemma_same_values::<u32>(left, right, descriptors, StreetArray::AdjCarSpeed);
    lemma_same_values::<u8>(left, right, descriptors, StreetArray::AdjJunction);
    lemma_same_values::<u32>(left, right, descriptors, StreetArray::CoordinateElevations);
}

fn offsets_hold(parts: &StreetNetworkParts) -> (hold: bool)
    ensures
        hold == adjacency_offsets_hold(parts@),
{
    let offsets = &parts.adjacency_offsets;
    if offsets.len() == 0 || offsets[0] != 0 {
        return false;
    }
    let mut index: usize = 1;
    while index < offsets.len()
        invariant
            1 <= index <= offsets@.len(),
            offsets@ == parts@.adjacency_offsets,
            forall|i: int, j: int| 0 <= i <= j < index ==> offsets@[i] <= offsets@[j],
        decreases offsets.len() - index,
    {
        if offsets[index - 1] > offsets[index] {
            return false;
        }
        index += 1;
    }
    offsets[offsets.len() - 1] as u64 == parts.adj_targets.len() as u64
}

fn spans_hold(parts: &StreetNetworkParts) -> (hold: bool)
    ensures
        hold == coordinate_offsets_hold(parts@),
{
    let offsets = &parts.coordinate_offsets;
    if offsets.len() == 0 || offsets[0] != 0 {
        return false;
    }
    let mut index: usize = 1;
    while index < offsets.len()
        invariant
            1 <= index <= offsets@.len(),
            offsets@ == parts@.coordinate_offsets,
            forall|edge: int| 0 <= edge < index - 1 ==> #[trigger] spans_two(offsets@, edge),
        decreases offsets.len() - index,
    {
        if offsets[index] < offsets[index - 1] || offsets[index] - offsets[index - 1] < 2 {
            assert(!spans_two(offsets@, index - 1));
            return false;
        }
        index += 1;
    }
    offsets[offsets.len() - 1] as u64 == parts.lons.len() as u64
}

fn ids_below(ids: &[u32], limit: usize) -> (below: bool)
    ensures
        below == all_below(ids@, limit as nat),
{
    let mut index: usize = 0;
    while index < ids.len()
        invariant
            index <= ids@.len(),
            forall|i: int| #![trigger ids@[i]] 0 <= i < index ==> ids@[i] < limit,
        decreases ids.len() - index,
    {
        if ids[index] as u64 >= limit as u64 {
            return false;
        }
        index += 1;
    }
    true
}

fn costs_all(values: &[u64]) -> (all: bool)
    ensures
        all == all_costs(values@),
{
    let mut index: usize = 0;
    while index < values.len()
        invariant
            index <= values@.len(),
            forall|i: int| #![trigger values@[i]] 0 <= i < index ==> f64_is_cost(values@[i]),
        decreases values.len() - index,
    {
        if !is_cost(values[index]) {
            return false;
        }
        index += 1;
    }
    true
}

fn costs_all_f32(values: &[u32]) -> (all: bool)
    ensures
        all == all_costs_f32(values@),
{
    let mut index: usize = 0;
    while index < values.len()
        invariant
            index <= values@.len(),
            forall|i: int| #![trigger values@[i]] 0 <= i < index ==> f32_is_cost(values@[i]),
        decreases values.len() - index,
    {
        if !is_cost_f32(values[index]) {
            return false;
        }
        index += 1;
    }
    true
}

pub proof fn lemma_row_of(offsets: Seq<u32>, slot: int, from: int, row: int)
    requires
        0 <= from <= row < offsets.len() - 1,
        forall|i: int, j: int| 0 <= i <= j < offsets.len() ==> offsets[i] <= offsets[j],
        offsets[row] <= slot < offsets[row + 1],
    ensures
        row_of(offsets, slot, from) == row,
    decreases row - from,
{
    if from < row {
        assert(offsets[from + 1] <= offsets[row]);
        lemma_row_of(offsets, slot, from + 1, row);
    }
}

proof fn lemma_slots_grow(streets: StreetModel, edge: int, few: int, many: int)
    requires
        0 <= few <= many,
    ensures
        forward_slots(streets, edge, few) <= forward_slots(streets, edge, many),
        backward_slots(streets, edge, few) <= backward_slots(streets, edge, many),
    decreases many - few,
{
    if few < many {
        lemma_slots_grow(streets, edge, few, many - 1);
    }
}

proof fn lemma_loop_slots(streets: StreetModel, edge: int, slots: int)
    requires
        is_loop(streets, edge),
    ensures
        forward_slots(streets, edge, slots) == backward_slots(streets, edge, slots),
    decreases slots,
{
    if slots > 0 {
        lemma_loop_slots(streets, edge, slots - 1);
    }
}

/// How the two direction marks of an edge relate to the slots seen.
spec fn marks_hold(streets: StreetModel, edge: int, slots: int, marks: (bool, bool)) -> bool {
    let forward = forward_slots(streets, edge, slots);
    let backward = backward_slots(streets, edge, slots);
    if is_loop(streets, edge) {
        forward == (if marks.0 {
            1int
        } else {
            0
        }) + (if marks.1 {
            1int
        } else {
            0
        }) && (marks.1 ==> marks.0)
    } else {
        forward == (if marks.0 {
            1int
        } else {
            0
        }) && backward == (if marks.1 {
            1int
        } else {
            0
        })
    }
}

#[verifier::rlimit(40)]
fn adjacency_rows_hold(parts: &StreetNetworkParts) -> (hold: bool)
    requires
        parts@.adjacency_offsets.len() == parts@.vertex_count + 1,
        parts@.adj_edges.len() == parts@.adj_targets.len(),
        parts@.adj_meters.len() == parts@.adj_targets.len(),
        parts@.endpoints.len() == 2 * parts@.lengths.len(),
        adjacency_offsets_hold(parts@),
        references_hold(parts@),
    ensures
        hold == rows_hold(parts@),
{
    let ghost streets = parts@;
    let edges: usize = parts.lengths.len();
    let vertices: usize = parts.adjacency_offsets.len() - 1;
    let pairs: usize = parts.endpoints.len();
    let mut marks: Vec<(bool, bool)> = Vec::new();
    let mut filled: usize = 0;
    while filled < edges
        invariant
            filled <= edges,
            marks@.len() == filled,
            forall|e: int|
                0 <= e < filled ==> marks_hold(streets, e, 0, #[trigger] marks@[e]),
        decreases edges - filled,
    {
        marks.push((false, false));
        filled += 1;
    }
    let mut vertex: usize = 0;
    let mut slot: usize = 0;
    while vertex < vertices
        invariant
            vertex <= vertices,
            vertices + 1 == streets.adjacency_offsets.len(),
            vertices <= u32::MAX,
            edges == streets.lengths.len(),
            pairs == streets.endpoints.len() == 2 * edges,
            streets == parts@,
            streets.adj_edges.len() == streets.adj_targets.len(),
            streets.adj_meters.len() == streets.adj_targets.len(),
            adjacency_offsets_hold(streets),
            references_hold(streets),
            slot == streets.adjacency_offsets[vertex as int],
            marks@.len() == edges,
            forall|s: int| 0 <= s < slot ==> #[trigger] restates(streets, s),
            forall|e: int|
                0 <= e < edges ==> marks_hold(streets, e, slot as int, #[trigger] marks@[e]),
        decreases vertices - vertex,
    {
        let end: usize = parts.adjacency_offsets[vertex + 1] as usize;
        while slot < end
            invariant
                vertex < vertices,
                vertices + 1 == streets.adjacency_offsets.len(),
                vertices <= u32::MAX,
                edges == streets.lengths.len(),
                pairs == streets.endpoints.len() == 2 * edges,
                streets == parts@,
                streets.adj_edges.len() == streets.adj_targets.len(),
                streets.adj_meters.len() == streets.adj_targets.len(),
                adjacency_offsets_hold(streets),
                references_hold(streets),
                streets.adjacency_offsets[vertex as int] <= slot <= end,
                end == streets.adjacency_offsets[vertex + 1],
                marks@.len() == edges,
                forall|s: int| 0 <= s < slot ==> #[trigger] restates(streets, s),
                forall|e: int|
                    0 <= e < edges ==> marks_hold(streets, e, slot as int, #[trigger] marks@[e]),
            decreases end - slot,
        {
            proof {
                assert(streets.adjacency_offsets[vertex + 1] <= streets.adjacency_offsets.last());
                lemma_row_of(streets.adjacency_offsets, slot as int, 0, vertex as int);
            }
            let edge: usize = parts.adj_edges[slot] as usize;
            assert(streets.adj_edges[slot as int] < edges);
            let from: u32 = parts.endpoints[2 * edge];
            let to: u32 = parts.endpoints[2 * edge + 1];
            let origin: u32 = vertex as u32;
            let target: u32 = parts.adj_targets[slot];
            let forward: bool = origin == from && target == to;
            let backward: bool = origin == to && target == from;
            if !(forward || backward) || !equal(parts.adj_meters[slot], parts.lengths[edge]) {
                assert(!restates(streets, slot as int));
                return false;
            }
            let mark: (bool, bool) = marks[edge];
            assert(marks_hold(streets, edge as int, slot as int, marks@[edge as int]));
            if forward && !mark.0 {
                marks.set(edge, (true, mark.1));
            } else if backward && !mark.1 {
                marks.set(edge, (mark.0, true));
            } else {
                proof {
                    lemma_slots_grow(
                        streets,
                        edge as int,
                        slot + 1,
                        streets.adj_edges.len() as int,
                    );
                    assert(!appears_both_ways(streets, edge as int));
                }
                return false;
            }
            proof {
                assert(restates(streets, slot as int));
                assert forall|e: int| 0 <= e < edges implies marks_hold(
                    streets,
                    e,
                    slot + 1,
                    #[trigger] marks@[e],
                ) by {
                    if e == edge {
                        if is_loop(streets, e) {
                            lemma_loop_slots(streets, e, slot as int);
                        }
                    } else {
                        assert(streets.adj_edges[slot as int] != e);
                    }
                }
            }
            slot += 1;
        }
        vertex += 1;
    }
    let slots: usize = parts.adj_targets.len();
    assert(slot == slots);
    let mut edge: usize = 0;
    while edge < edges
        invariant
            edge <= edges == streets.lengths.len(),
            streets == parts@,
            slots == streets.adj_edges.len(),
            marks@.len() == edges,
            forall|s: int| 0 <= s < slots ==> #[trigger] restates(streets, s),
            forall|e: int|
                0 <= e < edges ==> marks_hold(streets, e, slots as int, #[trigger] marks@[e]),
            forall|e: int| 0 <= e < edge ==> #[trigger] appears_both_ways(streets, e),
        decreases edges - edge,
    {
        let mark: (bool, bool) = marks[edge];
        assert(marks_hold(streets, edge as int, slots as int, marks@[edge as int]));
        if !mark.0 || !mark.1 {
            assert(!appears_both_ways(streets, edge as int));
            return false;
        }
        assert(appears_both_ways(streets, edge as int));
        edge += 1;
    }
    true
}

fn same_levels(left: &[u32], right: &[u32]) -> (same: bool)
    ensures
        same == (left@ == right@),
{
    if left.len() != right.len() {
        return false;
    }
    let mut index: usize = 0;
    while index < left.len()
        invariant
            index <= left@.len() == right@.len(),
            forall|i: int| 0 <= i < index ==> left@[i] == right@[i],
        decreases left.len() - index,
    {
        if left[index] != right[index] {
            return false;
        }
        index += 1;
    }
    assert(left@ =~= right@);
    true
}

pub proof fn lemma_offsets_rise(offsets: Seq<u32>, low: int, high: int)
    requires
        0 <= low <= high < offsets.len(),
        forall|edge: int| 0 <= edge < offsets.len() - 1 ==> #[trigger] spans_two(offsets, edge),
    ensures
        offsets[low] <= offsets[high],
    decreases high - low,
{
    if low < high {
        lemma_offsets_rise(offsets, low, high - 1);
        assert(spans_two(offsets, high - 1));
    }
}

fn index_payloads_hold(parts: &StreetNetworkParts) -> (hold: bool)
    requires
        parts@.coordinate_offsets.len() == parts@.lengths.len() + 1,
        coordinate_offsets_hold(parts@),
    ensures
        hold == payloads_hold(parts@),
{
    let ghost streets = parts@;
    let coordinates: usize = parts.lons.len();
    let edges: usize = parts.lengths.len();
    let words: usize = parts.index_payload.len();
    let leaves: usize = words / 2;
    let mut seen: Vec<bool> = Vec::new();
    let mut filled: usize = 0;
    while filled < coordinates
        invariant
            filled <= coordinates,
            seen@.len() == filled,
            forall|c: int| 0 <= c < filled ==> !#[trigger] seen@[c],
        decreases coordinates - filled,
    {
        seen.push(false);
        filled += 1;
    }
    let mut leaf: usize = 0;
    while leaf < leaves
        invariant
            leaf <= leaves == words / 2,
            words == streets.index_payload.len(),
            streets == parts@,
            edges == streets.lengths.len(),
            coordinates == streets.lons.len(),
            streets.coordinate_offsets.len() == edges + 1,
            coordinate_offsets_hold(streets),
            seen@.len() == coordinates,
            forall|l: int| 0 <= l < leaf ==> #[trigger] leaf_holds(streets, l),
            forall|l: int, r: int|
                0 <= l < r < leaf ==> #[trigger] leaf_segment(streets, l)
                    != #[trigger] leaf_segment(streets, r),
            forall|c: int|
                #![trigger seen@[c]]
                0 <= c < coordinates ==> (seen@[c] == exists|l: int|
                    0 <= l < leaf && #[trigger] leaf_segment(streets, l) == c),
        decreases leaves - leaf,
    {
        let edge: usize = parts.index_payload[2 * leaf] as usize;
        let segment: usize = parts.index_payload[2 * leaf + 1] as usize;
        assert(edge == leaf_edge(streets, leaf as int));
        assert(segment == leaf_segment(streets, leaf as int));
        if edge >= edges || (segment as u64) < parts.coordinate_offsets[edge] as u64 || segment as u64
            + 1 >= parts.coordinate_offsets[edge + 1] as u64 {
            assert(!leaf_holds(streets, leaf as int));
            return false;
        }
        proof {
            lemma_offsets_rise(streets.coordinate_offsets, edge + 1, edges as int);
            assert(leaf_holds(streets, leaf as int));
        }
        if seen[segment] {
            proof {
                let l = choose|l: int|
                    0 <= l < leaf && #[trigger] leaf_segment(streets, l) == segment;
                assert(leaf_segment(streets, l) == leaf_segment(streets, leaf as int));
            }
            return false;
        }
        let ghost before = seen@;
        seen.set(segment, true);
        proof {
            assert forall|c: int| 0 <= c < coordinates implies (#[trigger] seen@[c] == exists|
                l: int,
            |
                0 <= l < leaf + 1 && #[trigger] leaf_segment(streets, l) == c) by {
                if c == segment {
                    assert(leaf_segment(streets, leaf as int) == c);
                } else {
                    assert(seen@[c] == before[c]);
                }
            }
            assert forall|l: int, r: int| 0 <= l < r < leaf + 1 implies #[trigger] leaf_segment(
                streets,
                l,
            ) != #[trigger] leaf_segment(streets, r) by {
                if r == leaf {
                    assert(!before[segment as int]);
                }
            }
        }
        leaf += 1;
    }
    true
}

fn link_records_hold(parts: &StreetNetworkParts) -> (hold: bool)
    requires
        parts@.endpoints.len() == 2 * parts@.lengths.len(),
        forall|i: int|
            #![trigger parts@.links[i]]
            0 <= i < parts@.links.len() ==> parts@.links[i].edge < parts@.lengths.len(),
    ensures
        hold == links_hold(parts@),
{
    let pairs: usize = parts.endpoints.len();
    let mut index: usize = 0;
    while index < parts.links.len()
        invariant
            index <= parts@.links.len(),
            pairs == parts@.endpoints.len() == 2 * parts@.lengths.len(),
            forall|i: int|
                #![trigger parts@.links[i]]
                0 <= i < parts@.links.len() ==> parts@.links[i].edge < parts@.lengths.len(),
            forall|i: int|
                #![trigger parts@.links[i]]
                0 <= i < index ==> {
                    let edge = parts@.links[i].edge as int;
                    parts@.links[i].from == parts@.endpoints[2 * edge] && parts@.links[i].to
                        == parts@.endpoints[2 * edge + 1]
                },
        decreases parts.links.len() - index,
    {
        let link: StoredLink = parts.links[index];
        assert(link == parts@.links[index as int]);
        let edge: usize = link.edge as usize;
        if link.from != parts.endpoints[2 * edge] || link.to != parts.endpoints[2 * edge + 1] {
            return false;
        }
        index += 1;
    }
    true
}

/// Decodes the street arrays into owned parts and cross-checks their
/// contents — the value tier a mapped load defers to `verify` and to first
/// use. The shape tier has run.
pub fn decode_streets(
    path: &str,
    meta: StreetsMeta,
    section: &[u8],
    expected_levels: Vec<u32>,
) -> (parts: Result<StreetNetworkParts, ValueError>)
    requires
        shape_accepted(meta.vertex_count, meta.links@, meta.descriptors@, section@.len()),
    ensures
        ({
            let streets = decoded(
                meta.vertex_count,
                meta.links@,
                meta.descriptors@,
                section@,
            );
            match value_fault(streets, expected_levels@) {
                Some(what) => parts matches Err(error) && error.message@ == corrupted_text(
                    path@,
                    what,
                ),
                None => parts matches Ok(parts) && parts@ == streets,
            }
        }),
{
    let parts = read_parts(meta, section);
    let ghost streets = parts@;
    if !offsets_hold(&parts) {
        return Err(corrupted(path, "street adjacency offsets"));
    }
    if !spans_hold(&parts) {
        return Err(corrupted(path, "street coordinate offsets"));
    }
    if !ids_below(parts.adj_targets.as_slice(), parts.vertex_count as usize) || !ids_below(
        parts.adj_edges.as_slice(),
        parts.lengths.len(),
    ) || !ids_below(parts.endpoints.as_slice(), parts.vertex_count as usize) {
        return Err(corrupted(path, "street graph references"));
    }
    if !adjacency_rows_hold(&parts) {
        return Err(corrupted(path, "street adjacency rows"));
    }
    if !costs_all(parts.adj_meters.as_slice()) || !costs_all(parts.lengths.as_slice())
        || !costs_all_f32(parts.cumulative.as_slice()) {
        return Err(corrupted(path, "street costs"));
    }
    if !same_levels(parts.index_level_starts.as_slice(), expected_levels.as_slice()) {
        return Err(corrupted(path, "street index shape"));
    }
    if !index_payloads_hold(&parts) {
        return Err(corrupted(path, "street index payloads"));
    }
    if !link_records_hold(&parts) {
        return Err(corrupted(path, "street link records"));
    }
    Ok(parts)
}

fn read_parts(meta: StreetsMeta, section: &[u8]) -> (parts: StreetNetworkParts)
    requires
        shape_accepted(meta.vertex_count, meta.links@, meta.descriptors@, section@.len()),
    ensures
        parts@ == decoded(meta.vertex_count, meta.links@, meta.descriptors@, section@),
        parts@.adjacency_offsets.len() == parts@.vertex_count + 1,
        parts@.adj_edges.len() == parts@.adj_targets.len(),
        parts@.adj_meters.len() == parts@.adj_targets.len(),
        parts@.endpoints.len() == 2 * parts@.lengths.len(),
        parts@.coordinate_offsets.len() == parts@.lengths.len() + 1,
        forall|i: int|
            #![trigger parts@.links[i]]
            0 <= i < parts@.links.len() ==> parts@.links[i].edge < parts@.lengths.len(),
{
    let descriptors = meta.descriptors.as_slice();
    proof {
        let (start, stop_count) = choose|start: nat, stop_count: u32|
            #[trigger] shape_fault(
                meta.vertex_count,
                meta.links@,
                meta.descriptors@,
                start,
                section@.len(),
                stop_count,
            ) is None;
        assert(laid_out(descriptors@, start, section@.len()));
        assert(counts_consistent(meta.vertex_count, descriptors@));
        lemma_core_kinds(descriptors@);
        lemma_ordered_table_is_readable(descriptors@, section@.len());
    }
    let (attributes, car, elevations) = decode_optional_street_arrays(section, descriptors);
    let parts = StreetNetworkParts {
        vertex_count: meta.vertex_count,
        adjacency_offsets: read_array::<u32>(section, &descriptors[0]),
        adj_targets: read_array::<u32>(section, &descriptors[1]),
        adj_meters: read_array::<u64>(section, &descriptors[2]),
        adj_edges: read_array::<u32>(section, &descriptors[3]),
        endpoints: read_array::<u32>(section, &descriptors[4]),
        lengths: read_array::<u64>(section, &descriptors[5]),
        coordinate_offsets: read_array::<u32>(section, &descriptors[6]),
        lons: read_array::<i32>(section, &descriptors[7]),
        lats: read_array::<i32>(section, &descriptors[8]),
        cumulative: read_array::<u32>(section, &descriptors[9]),
        index_boxes: read_array::<i32>(section, &descriptors[10]),
        index_payload: read_array::<u32>(section, &descriptors[11]),
        index_level_starts: read_array::<u32>(section, &descriptors[12]),
        links: meta.links,
        attributes,
        car,
        elevations,
    };
    parts
}

proof fn lemma_core_kinds(descriptors: Seq<ArrayDescriptor>)
    requires
        core_in_order(descriptors),
    ensures
        descriptors[0].kind.width() == 4,
        descriptors[1].kind.width() == 4,
        descriptors[2].kind.width() == 8,
        descriptors[3].kind.width() == 4,
        descriptors[4].kind.width() == 4,
        descriptors[5].kind.width() == 8,
        descriptors[6].kind.width() == 4,
        descriptors[7].kind.width() == 4,
        descriptors[8].kind.width() == 4,
        descriptors[9].kind.width() == 4,
        descriptors[10].kind.width() == 4,
        descriptors[11].kind.width() == 4,
        descriptors[12].kind.width() == 4,
{
}

/// A stored array is read value by value, each at its place behind the one
/// before.
pub proof fn law_values_are_read_one_behind_the_other<T: Pattern>(
    section: Seq<u8>,
    descriptor: ArrayDescriptor,
    i: int,
)
    requires
        0 <= i < descriptor.count,
    ensures
        array_values::<T>(section, descriptor).len() == descriptor.count,
        array_values::<T>(section, descriptor)[i] == T::of_pattern(
            le_value(
                section.subrange(
                    descriptor.offset + i * T::width(),
                    descriptor.offset + i * T::width() + T::width(),
                ),
            ),
        ),
{
    let width = T::width() as int;
    assert((i + 1) * width == i * width + width) by (nonlinear_arith);
}

/// An optional group is read where all of its arrays are stored, and not at
/// all where one is missing.
pub proof fn law_groups_are_read_whole(section: Seq<u8>, descriptors: Seq<ArrayDescriptor>)
    ensures
        decoded_attributes(section, descriptors) is Some <==> find_array(
            descriptors,
            StreetArray::AdjAccess,
            0,
        ) is Some && find_array(descriptors, StreetArray::AdjFacility, 0) is Some && find_array(
            descriptors,
            StreetArray::EdgeHighway,
            0,
        ) is Some && find_array(descriptors, StreetArray::EdgeSurface, 0) is Some && find_array(
            descriptors,
            StreetArray::EdgeSmoothness,
            0,
        ) is Some && find_array(descriptors, StreetArray::EdgeFlags, 0) is Some,
        decoded_car(section, descriptors) is Some <==> find_array(
            descriptors,
            StreetArray::AdjCarSpeed,
            0,
        ) is Some && find_array(descriptors, StreetArray::AdjJunction, 0) is Some,
{
}

/// The vertex a slot leaves is the one whose row holds the slot.
pub proof fn law_slots_leave_their_row(streets: StreetModel, slot: int, vertex: int)
    requires
        adjacency_offsets_hold(streets),
        0 <= vertex < streets.adjacency_offsets.len() - 1,
        streets.adjacency_offsets[vertex] <= slot < streets.adjacency_offsets[vertex + 1],
    ensures
        source(streets, slot) == vertex,
{
    lemma_row_of(streets.adjacency_offsets, slot, 0, vertex);
}

/// Row offsets that hold start at zero, never fall and end with the slots.
pub proof fn law_rows_follow_one_another(streets: StreetModel, low: int, high: int)
    requires
        adjacency_offsets_hold(streets),
        0 <= low <= high < streets.adjacency_offsets.len(),
    ensures
        streets.adjacency_offsets[0] == 0,
        streets.adjacency_offsets[low] <= streets.adjacency_offsets[high],
        streets.adjacency_offsets[streets.adjacency_offsets.len() - 1]
            == streets.adj_targets.len(),
{
}

/// Coordinate offsets that hold give every edge two coordinates of its own at
/// least, and all of them to some edge.
pub proof fn law_edges_have_two_coordinates(streets: StreetModel, edge: int)
    requires
        coordinate_offsets_hold(streets),
        0 <= edge < streets.coordinate_offsets.len() - 1,
    ensures
        streets.coordinate_offsets[0] == 0,
        streets.coordinate_offsets[edge] + 2 <= streets.coordinate_offsets[edge + 1],
        streets.coordinate_offsets[streets.coordinate_offsets.len() - 1] == streets.lons.len(),
{
    assert(spans_two(streets.coordinate_offsets, edge));
}

proof fn lemma_no_forward_slot(streets: StreetModel, edge: int, slots: int, slot: int)
    requires
        0 <= slot < slots,
        streets.adj_edges[slot] == edge,
        runs_forward(streets, slot),
    ensures
        forward_slots(streets, edge, slots) >= 1,
    decreases slots,
{
    if slot < slots - 1 {
        lemma_no_forward_slot(streets, edge, slots - 1, slot);
    }
}

proof fn lemma_no_backward_slot(streets: StreetModel, edge: int, slots: int, slot: int)
    requires
        0 <= slot < slots,
        streets.adj_edges[slot] == edge,
        runs_backward(streets, slot),
    ensures
        backward_slots(streets, edge, slots) >= 1,
    decreases slots,
{
    if slot < slots - 1 {
        lemma_no_backward_slot(streets, edge, slots - 1, slot);
    }
}

proof fn lemma_two_forward_slots(
    streets: StreetModel,
    edge: int,
    slots: int,
    first: int,
    second: int,
)
    requires
        0 <= first < second < slots,
        streets.adj_edges[first] == edge,
        streets.adj_edges[second] == edge,
        runs_forward(streets, first),
        runs_forward(streets, second),
    ensures
        forward_slots(streets, edge, slots) >= 2,
    decreases slots,
{
    if second < slots - 1 {
        lemma_two_forward_slots(streets, edge, slots - 1, first, second);
    } else {
        lemma_no_forward_slot(streets, edge, slots - 1, first);
    }
}

proof fn lemma_two_backward_slots(
    streets: StreetModel,
    edge: int,
    slots: int,
    first: int,
    second: int,
)
    requires
        0 <= first < second < slots,
        streets.adj_edges[first] == edge,
        streets.adj_edges[second] == edge,
        runs_backward(streets, first),
        runs_backward(streets, second),
    ensures
        backward_slots(streets, edge, slots) >= 2,
    decreases slots,
{
    if second < slots - 1 {
        lemma_two_backward_slots(streets, edge, slots - 1, first, second);
    } else {
        lemma_no_backward_slot(streets, edge, slots - 1, first);
    }
}

proof fn lemma_some_forward_slot(streets: StreetModel, edge: int, slots: int)
    requires
        forward_slots(streets, edge, slots) > 0,
    ensures
        exists|slot: int|
            0 <= slot < slots && streets.adj_edges[slot] == edge && #[trigger] runs_forward(
                streets,
                slot,
            ),
    decreases slots,
{
    if streets.adj_edges[slots - 1] == edge && runs_forward(streets, slots - 1) {
        assert(runs_forward(streets, slots - 1));
    } else {
        lemma_some_forward_slot(streets, edge, slots - 1);
    }
}

proof fn lemma_some_backward_slot(streets: StreetModel, edge: int, slots: int)
    requires
        backward_slots(streets, edge, slots) > 0,
    ensures
        exists|slot: int|
            0 <= slot < slots && streets.adj_edges[slot] == edge && #[trigger] runs_backward(
                streets,
                slot,
            ),
    decreases slots,
{
    if streets.adj_edges[slots - 1] == edge && runs_backward(streets, slots - 1) {
        assert(runs_backward(streets, slots - 1));
    } else {
        lemma_some_backward_slot(streets, edge, slots - 1);
    }
}

/// In rows that hold, an edge between two vertices has one slot each way: one
/// in the row of its first endpoint to its second, and one in the row of its
/// second to its first, and no other.
pub proof fn law_edges_run_once_each_way(
    streets: StreetModel,
    edge: int,
    left: int,
    right: int,
)
    requires
        rows_hold(streets),
        0 <= edge < streets.lengths.len(),
        streets.endpoints[2 * edge] != streets.endpoints[2 * edge + 1],
    ensures
        exists|slot: int|
            0 <= slot < streets.adj_edges.len() && streets.adj_edges[slot] == edge
                && #[trigger] source(streets, slot) == streets.endpoints[2 * edge]
                && streets.adj_targets[slot] == streets.endpoints[2 * edge + 1],
        exists|slot: int|
            0 <= slot < streets.adj_edges.len() && streets.adj_edges[slot] == edge
                && #[trigger] source(streets, slot) == streets.endpoints[2 * edge + 1]
                && streets.adj_targets[slot] == streets.endpoints[2 * edge],
        0 <= left < right < streets.adj_edges.len() && streets.adj_edges[left] == edge
            && streets.adj_edges[right] == edge ==> source(streets, left) != source(streets, right),
{
    let slots = streets.adj_edges.len() as int;
    assert(appears_both_ways(streets, edge));
    lemma_some_forward_slot(streets, edge, slots);
    lemma_some_backward_slot(streets, edge, slots);
    let forward = choose|slot: int|
        0 <= slot < slots && streets.adj_edges[slot] == edge && #[trigger] runs_forward(
            streets,
            slot,
        );
    let backward = choose|slot: int|
        0 <= slot < slots && streets.adj_edges[slot] == edge && #[trigger] runs_backward(
            streets,
            slot,
        );
    assert(source(streets, forward) == streets.endpoints[2 * edge]);
    assert(source(streets, backward) == streets.endpoints[2 * edge + 1]);
    if 0 <= left < right < slots && streets.adj_edges[left] == edge && streets.adj_edges[right]
        == edge {
        assert(restates(streets, left));
        assert(restates(streets, right));
        if runs_forward(streets, left) && runs_forward(streets, right) {
            lemma_two_forward_slots(streets, edge, slots, left, right);
        }
        if runs_backward(streets, left) && runs_backward(streets, right) {
            lemma_two_backward_slots(streets, edge, slots, left, right);
        }
    }
}

/// In rows that hold, every slot has its edge's length, and joins its edge's
/// two endpoints.
pub proof fn law_slots_restate_their_edge(streets: StreetModel, slot: int)
    requires
        rows_hold(streets),
        0 <= slot < streets.adj_edges.len(),
    ensures
        ({
            let edge = streets.adj_edges[slot] as int;
            let one = streets.endpoints[2 * edge];
            let other = streets.endpoints[2 * edge + 1];
            &&& f64_equal(streets.adj_meters[slot], streets.lengths[edge])
            &&& source(streets, slot) == one && streets.adj_targets[slot] == other || source(
                streets,
                slot,
            ) == other && streets.adj_targets[slot] == one
        }),
{
    assert(restates(streets, slot));
}

/// A decoded network is sound exactly where its offsets, references, rows,
/// costs, levels, payloads and links all hold.
pub proof fn law_sound_values(streets: StreetModel, expected_levels: Seq<u32>)
    ensures
        value_fault(streets, expected_levels) is None <==> adjacency_offsets_hold(streets)
            && coordinate_offsets_hold(streets) && references_hold(streets) && rows_hold(streets)
            && costs_hold(streets) && streets.index_level_starts == expected_levels
            && payloads_hold(streets) && links_hold(streets),
{
}

/// In a sound network every id names what exists, every cost is an amount,
/// every leaf names a segment of its edge, and every link its edge's ends.
pub proof fn law_sound_networks_name_what_exists(
    streets: StreetModel,
    expected_levels: Seq<u32>,
    i: int,
)
    requires
        value_fault(streets, expected_levels) is None,
    ensures
        0 <= i < streets.adj_targets.len() ==> streets.adj_targets[i] < streets.vertex_count,
        0 <= i < streets.adj_edges.len() ==> streets.adj_edges[i] < streets.lengths.len(),
        0 <= i < streets.endpoints.len() ==> streets.endpoints[i] < streets.vertex_count,
        0 <= i < streets.adj_meters.len() ==> f64_is_cost(streets.adj_meters[i]),
        0 <= i < streets.lengths.len() ==> f64_is_cost(streets.lengths[i]),
        0 <= i < streets.cumulative.len() ==> f32_is_cost(streets.cumulative[i]),
        0 <= i < streets.index_payload.len() / 2 ==> {
            let edge = streets.index_payload[2 * i] as int;
            let segment = streets.index_payload[2 * i + 1];
            &&& edge < streets.lengths.len()
            &&& streets.coordinate_offsets[edge] <= segment
            &&& segment + 1 < streets.coordinate_offsets[edge + 1]
        },
        0 <= i < streets.links.len() ==> {
            let edge = streets.links[i].edge as int;
            &&& streets.links[i].from == streets.endpoints[2 * edge]
            &&& streets.links[i].to == streets.endpoints[2 * edge + 1]
        },
{
    if 0 <= i < streets.index_payload.len() / 2 {
        assert(leaf_holds(streets, i));
    }
}

/// In a sound network no two leaves name one segment.
pub proof fn law_leaves_name_different_segments(
    streets: StreetModel,
    expected_levels: Seq<u32>,
    left: int,
    right: int,
)
    requires
        value_fault(streets, expected_levels) is None,
        0 <= left < right < streets.index_payload.len() / 2,
    ensures
        streets.index_payload[2 * left + 1] != streets.index_payload[2 * right + 1],
{
    assert(leaf_segment(streets, left) != leaf_segment(streets, right));
}

} // verus!
