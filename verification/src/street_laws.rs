//! What storing and loading a street network guarantees as a whole.

use crate::bytes::{law_le_round_trip, le_bytes, lemma_le_bytes_len};
use crate::container::lemma_aligned;
use crate::street_arrays::{
    array_bytes, array_start, array_table, attribute_arrays, car_arrays, core_arrays,
    elevation_arrays, patterns, stored_arrays, value_bytes, ArrayDescriptor, Pattern, StoredArray,
    StreetArray, StreetModel, ARRAY_ALIGNMENT,
};
use crate::street_decode::{
    array_values, coordinate_offsets_hold, decoded, decoded_attributes, decoded_car, leaf_edge,
    leaf_holds, leaf_segment, lemma_offsets_rise, optional_values, payloads_hold, spans_two,
};
use crate::street_shape::{
    find_array, lemma_array_extent, lemma_array_starts, lemma_optional_positions,
    lemma_value_bytes_len, parts_consistent, shifted,
};
use vstd::prelude::*;
use vstd::set_lib::{lemma_int_range, lemma_subset_equality, set_int_range};

verus! {

proof fn lemma_value_at(values: Seq<nat>, width: nat, j: int)
    requires
        0 <= j < values.len(),
    ensures
        (j + 1) * width <= values.len() * width,
        0 <= j * width <= (j + 1) * width,
        value_bytes(values, width).len() == values.len() * width,
        value_bytes(values, width).subrange(j * width, (j + 1) * width) == le_bytes(
            values[j],
            width,
        ),
    decreases values.len(),
{
    let before = values.drop_last();
    let count = values.len();
    lemma_value_bytes_len(values, width);
    lemma_value_bytes_len(before, width);
    lemma_le_bytes_len(values.last(), width);
    assert((j + 1) * width == j * width + width) by (nonlinear_arith);
    assert((j + 1) * width <= count * width) by (nonlinear_arith)
        requires
            j + 1 <= count,
    ;
    assert(0 <= j * width) by (nonlinear_arith)
        requires
            j >= 0,
    ;
    if j < count - 1 {
        lemma_value_at(before, width, j);
        assert(value_bytes(values, width).subrange(j * width, (j + 1) * width) =~= value_bytes(
            before,
            width,
        ).subrange(j * width, (j + 1) * width));
    } else {
        assert(value_bytes(values, width).subrange(j * width, (j + 1) * width) =~= le_bytes(
            values.last(),
            width,
        ));
    }
}

/// The bytes of array `i` inside the bytes of all.
proof fn lemma_array_at(arrays: Seq<StoredArray>, i: int)
    requires
        0 <= i < arrays.len(),
    ensures
        ({
            let start = array_start(arrays.subrange(0, i)) as int;
            let length = arrays[i].values.len() * arrays[i].kind.width();
            &&& start + length <= array_bytes(arrays).len()
            &&& array_bytes(arrays).subrange(start, start + length) == value_bytes(
                arrays[i].values,
                arrays[i].kind.width(),
            )
        }),
    decreases arrays.len(),
{
    let start = array_start(arrays.subrange(0, i)) as int;
    let length = arrays[i].values.len() * arrays[i].kind.width();
    let before = arrays.drop_last();
    lemma_array_extent(arrays, i);
    lemma_aligned(array_bytes(before).len(), ARRAY_ALIGNMENT as nat);
    lemma_value_bytes_len(arrays[i].values, arrays[i].kind.width());
    if i < arrays.len() - 1 {
        assert(arrays.subrange(0, i) =~= before.subrange(0, i));
        lemma_array_at(before, i);
        assert(array_bytes(arrays).subrange(start, start + length) =~= array_bytes(
            before,
        ).subrange(start, start + length));
    } else {
        assert(arrays.subrange(0, i) =~= before);
        assert(array_bytes(arrays).subrange(start, start + length) =~= value_bytes(
            arrays[i].values,
            arrays[i].kind.width(),
        ));
    }
}

/// One stored array reads back as the values that went in.
proof fn lemma_array_reads_back<T: Pattern>(
    arrays: Seq<StoredArray>,
    i: int,
    values: Seq<T>,
    head: Seq<u8>,
    tail: Seq<u8>,
)
    requires
        0 <= i < arrays.len(),
        arrays[i].values == patterns(values),
        arrays[i].kind.width() == T::width(),
        head.len() + array_bytes(arrays).len() <= u64::MAX,
    ensures
        array_values::<T>(
            head + array_bytes(arrays) + tail,
            shifted(array_table(arrays), head.len())[i],
        ) == values,
{
    let section = head + array_bytes(arrays) + tail;
    let descriptor = shifted(array_table(arrays), head.len())[i];
    let start = array_start(arrays.subrange(0, i)) as int;
    let width = T::width();
    let count = values.len();
    lemma_array_at(arrays, i);
    lemma_array_extent(arrays, i);
    lemma_array_starts(arrays, i);
    if count > 0 {
        T::lemma_pattern(values[0]);
    }
    assert(count <= count * width) by (nonlinear_arith)
        requires
            width >= 1,
    ;
    assert(descriptor.count == count);
    assert(descriptor.offset == head.len() + start);
    assert forall|j: int| 0 <= j < count implies #[trigger] array_values::<T>(
        section,
        descriptor,
    )[j] == values[j] by {
        T::lemma_pattern(values[j]);
        lemma_value_at(arrays[i].values, width, j);
        let bytes = value_bytes(arrays[i].values, width);
        let length = (count * width) as int;
        assert(section.subrange(
            descriptor.offset + j * width,
            descriptor.offset + (j + 1) * width,
        ) =~= array_bytes(arrays).subrange(start, start + length).subrange(
            j * width,
            (j + 1) * width,
        ));
        law_le_round_trip(values[j].pattern(), width);
    }
    assert(array_values::<T>(section, descriptor) =~= values);
}

proof fn lemma_find_from_zero(streets: StreetModel, table: Seq<ArrayDescriptor>, array: StreetArray)
    requires
        table.len() == stored_arrays(streets).len(),
        forall|i: int|
            0 <= i < table.len() ==> (#[trigger] table[i]).array == stored_arrays(streets)[i].array,
        forall|i: int| 0 <= i < 13 ==> (#[trigger] core_arrays(streets)[i]).array != array,
    ensures
        find_array(table, array, 0) == find_array(table, array, 13),
{
    let arrays = stored_arrays(streets);
    assert(core_arrays(streets).len() == 13);
    assert forall|i: int| 0 <= i < 13 implies (#[trigger] table[i]).array != array by {
        assert(arrays[i] == core_arrays(streets)[i]);
    }
    lemma_find_skips(table, array, 0, 13);
}

proof fn lemma_find_skips(table: Seq<ArrayDescriptor>, array: StreetArray, from: int, to: int)
    requires
        0 <= from <= to <= table.len(),
        forall|i: int| from <= i < to ==> (#[trigger] table[i]).array != array,
    ensures
        find_array(table, array, from) == find_array(table, array, to),
    decreases to - from,
{
    if from < to {
        lemma_find_skips(table, array, from + 1, to);
    }
}

proof fn lemma_core_reads_back(streets: StreetModel, head: Seq<u8>, tail: Seq<u8>)
    requires
        head.len() + array_bytes(stored_arrays(streets)).len() <= u64::MAX,
    ensures
        ({
            let arrays = stored_arrays(streets);
            let section = head + array_bytes(arrays) + tail;
            let table = shifted(array_table(arrays), head.len());
            &&& array_values::<u32>(section, table[0]) == streets.adjacency_offsets
            &&& array_values::<u32>(section, table[1]) == streets.adj_targets
            &&& array_values::<u64>(section, table[2]) == streets.adj_meters
            &&& array_values::<u32>(section, table[3]) == streets.adj_edges
            &&& array_values::<u32>(section, table[4]) == streets.endpoints
            &&& array_values::<u64>(section, table[5]) == streets.lengths
            &&& array_values::<u32>(section, table[6]) == streets.coordinate_offsets
            &&& array_values::<i32>(section, table[7]) == streets.lons
            &&& array_values::<i32>(section, table[8]) == streets.lats
            &&& array_values::<u32>(section, table[9]) == streets.cumulative
            &&& array_values::<i32>(section, table[10]) == streets.index_boxes
            &&& array_values::<u32>(section, table[11]) == streets.index_payload
            &&& array_values::<u32>(section, table[12]) == streets.index_level_starts
        }),
{
    let arrays = stored_arrays(streets);
    let core = core_arrays(streets);
    assert(core.len() == 13);
    assert(forall|i: int| 0 <= i < 13 ==> arrays[i] == core[i]);
    lemma_array_reads_back(arrays, 0, streets.adjacency_offsets, head, tail);
    lemma_array_reads_back(arrays, 1, streets.adj_targets, head, tail);
    lemma_array_reads_back(arrays, 2, streets.adj_meters, head, tail);
    lemma_array_reads_back(arrays, 3, streets.adj_edges, head, tail);
    lemma_array_reads_back(arrays, 4, streets.endpoints, head, tail);
    lemma_array_reads_back(arrays, 5, streets.lengths, head, tail);
    lemma_array_reads_back(arrays, 6, streets.coordinate_offsets, head, tail);
    lemma_array_reads_back(arrays, 7, streets.lons, head, tail);
    lemma_array_reads_back(arrays, 8, streets.lats, head, tail);
    lemma_array_reads_back(arrays, 9, streets.cumulative, head, tail);
    lemma_array_reads_back(arrays, 10, streets.index_boxes, head, tail);
    lemma_array_reads_back(arrays, 11, streets.index_payload, head, tail);
    lemma_array_reads_back(arrays, 12, streets.index_level_starts, head, tail);
}

proof fn lemma_optional_reads_back(streets: StreetModel, head: Seq<u8>, tail: Seq<u8>)
    requires
        head.len() + array_bytes(stored_arrays(streets)).len() <= u64::MAX,
    ensures
        ({
            let arrays = stored_arrays(streets);
            let section = head + array_bytes(arrays) + tail;
            let table = shifted(array_table(arrays), head.len());
            &&& decoded_attributes(section, table) == streets.attributes
            &&& decoded_car(section, table) == streets.car
            &&& optional_values::<u32>(section, table, StreetArray::CoordinateElevations)
                == streets.elevations
        }),
{
    let arrays = stored_arrays(streets);
    let section = head + array_bytes(arrays) + tail;
    let table = shifted(array_table(arrays), head.len());
    let attributes = attribute_arrays(streets.attributes);
    let elevations = elevation_arrays(streets.elevations);
    let car = car_arrays(streets.car);
    assert(core_arrays(streets).len() == 13);
    lemma_optional_positions(streets, table);
    lemma_find_from_zero(streets, table, StreetArray::AdjAccess);
    lemma_find_from_zero(streets, table, StreetArray::AdjFacility);
    lemma_find_from_zero(streets, table, StreetArray::EdgeHighway);
    lemma_find_from_zero(streets, table, StreetArray::EdgeSurface);
    lemma_find_from_zero(streets, table, StreetArray::EdgeSmoothness);
    lemma_find_from_zero(streets, table, StreetArray::EdgeFlags);
    lemma_find_from_zero(streets, table, StreetArray::CoordinateElevations);
    lemma_find_from_zero(streets, table, StreetArray::AdjCarSpeed);
    lemma_find_from_zero(streets, table, StreetArray::AdjJunction);
    if let Some(group) = streets.attributes {
        assert(arrays[13] == attributes[0]);
        assert(arrays[14] == attributes[1]);
        assert(arrays[15] == attributes[2]);
        assert(arrays[16] == attributes[3]);
        assert(arrays[17] == attributes[4]);
        assert(arrays[18] == attributes[5]);
        lemma_array_reads_back(arrays, 13, group.adj_access, head, tail);
        lemma_array_reads_back(arrays, 14, group.adj_facility, head, tail);
        lemma_array_reads_back(arrays, 15, group.edge_highway, head, tail);
        lemma_array_reads_back(arrays, 16, group.edge_surface, head, tail);
        lemma_array_reads_back(arrays, 17, group.edge_smoothness, head, tail);
        lemma_array_reads_back(arrays, 18, group.edge_flags, head, tail);
    }
    let elevation_at = (13 + attributes.len()) as int;
    if let Some(sampled) = streets.elevations {
        assert(arrays[elevation_at] == elevations[0]);
        lemma_array_reads_back(arrays, elevation_at, sampled, head, tail);
    }
    let car_at = elevation_at + elevations.len();
    if let Some(group) = streets.car {
        assert(arrays[car_at] == car[0]);
        assert(arrays[car_at + 1] == car[1]);
        lemma_array_reads_back(arrays, car_at, group.adj_car_speed, head, tail);
        lemma_array_reads_back(arrays, car_at + 1, group.adj_junction, head, tail);
    }
}

/// What a save stores, a load reads back: the network decoded from a section
/// that holds its encoded block, with anything before and behind it, is the
/// network that was encoded.
pub proof fn law_streets_round_trip(streets: StreetModel, head: Seq<u8>, tail: Seq<u8>)
    requires
        head.len() + array_bytes(stored_arrays(streets)).len() <= u64::MAX,
    ensures
        decoded(
            streets.vertex_count,
            streets.links,
            shifted(array_table(stored_arrays(streets)), head.len()),
            head + array_bytes(stored_arrays(streets)) + tail,
        ) == streets,
{
    lemma_core_reads_back(streets, head, tail);
    lemma_optional_reads_back(streets, head, tail);
}

/// The last coordinate of an edge.
spec fn last_coordinate(streets: StreetModel, edge: int) -> int {
    streets.coordinate_offsets[edge + 1] - 1
}

/// Coordinates that the leaves name, then the edges' last coordinates.
spec fn named_coordinates(streets: StreetModel) -> Seq<int> {
    let leaves = streets.index_payload.len() / 2;
    Seq::new(
        leaves + streets.lengths.len(),
        |i: int|
            if i < leaves {
                leaf_segment(streets, i)
            } else {
                last_coordinate(streets, i - leaves)
            },
    )
}

proof fn lemma_leaf_is_no_last(streets: StreetModel, leaf: int, edge: int)
    requires
        coordinate_offsets_hold(streets),
        streets.coordinate_offsets.len() == streets.lengths.len() + 1,
        0 <= edge < streets.lengths.len(),
        0 <= leaf_edge(streets, leaf),
        leaf_holds(streets, leaf),
    ensures
        leaf_segment(streets, leaf) != last_coordinate(streets, edge),
{
    let own = leaf_edge(streets, leaf);
    if edge < own {
        lemma_offsets_rise(streets.coordinate_offsets, edge + 1, own);
    } else if edge > own {
        lemma_offsets_rise(streets.coordinate_offsets, own + 1, edge);
        assert(spans_two(streets.coordinate_offsets, edge));
    }
}

/// Every street segment is in the index, under its own edge: an accepted
/// network never silently skips a street when points snap to it.
pub proof fn law_index_covers_every_segment(streets: StreetModel, edge: int, segment: int)
    requires
        parts_consistent(streets),
        coordinate_offsets_hold(streets),
        payloads_hold(streets),
        0 <= edge < streets.lengths.len(),
        streets.coordinate_offsets[edge] <= segment,
        segment + 1 < streets.coordinate_offsets[edge + 1],
    ensures
        exists|leaf: int|
            0 <= leaf < streets.index_payload.len() / 2 && #[trigger] leaf_edge(streets, leaf)
                == edge && leaf_segment(streets, leaf) == segment,
{
    let leaves = (streets.index_payload.len() / 2) as int;
    let edges = streets.lengths.len() as int;
    let coordinates = streets.lons.len() as int;
    let offsets = streets.coordinate_offsets;
    let named = named_coordinates(streets);
    let all = set_int_range(0, coordinates);
    assert forall|i: int| 0 <= i < named.len() implies 0 <= #[trigger] named[i] < coordinates by {
        if i < leaves {
            assert(leaf_holds(streets, i));
            lemma_offsets_rise(offsets, leaf_edge(streets, i) + 1, edges);
        } else {
            lemma_offsets_rise(offsets, i - leaves + 1, edges);
            assert(spans_two(offsets, i - leaves));
        }
    }
    assert forall|i: int, j: int| 0 <= i < j < named.len() implies #[trigger] named[i]
        != #[trigger] named[j] by {
        if j < leaves {
            assert(leaf_segment(streets, i) != leaf_segment(streets, j));
        } else if i < leaves {
            assert(leaf_holds(streets, i));
            lemma_leaf_is_no_last(streets, i, j - leaves);
        } else {
            lemma_offsets_rise(offsets, i - leaves + 1, j - leaves);
            assert(spans_two(offsets, j - leaves));
        }
    }
    assert(named.no_duplicates());
    named.unique_seq_to_set();
    lemma_int_range(0, coordinates);
    assert(named.to_set().finite()) by {
        vstd::seq_lib::seq_to_set_is_finite(named);
    }
    assert(named.to_set().subset_of(all)) by {
        assert forall|c: int| named.to_set().contains(c) implies all.contains(c) by {
            let i = choose|i: int| 0 <= i < named.len() && named[i] == c;
            assert(0 <= named[i] < coordinates);
        }
    }
    lemma_subset_equality(named.to_set(), all);
    lemma_offsets_rise(offsets, edge + 1, edges);
    assert(all.contains(segment));
    assert(named.to_set().contains(segment));
    let at = choose|i: int| 0 <= i < named.len() && named[i] == segment;
    if at >= leaves {
        let other = at - leaves;
        if other < edge {
            lemma_offsets_rise(offsets, other + 1, edge);
        } else if other > edge {
            lemma_offsets_rise(offsets, edge + 1, other);
            assert(spans_two(offsets, other));
        }
        assert(false);
    }
    assert(leaf_holds(streets, at));
    let own = leaf_edge(streets, at);
    if own < edge {
        lemma_offsets_rise(offsets, own + 1, edge);
        assert(false);
    } else if own > edge {
        lemma_offsets_rise(offsets, edge + 1, own);
        assert(false);
    }
}

/// A stored array lies where its table says, on a boundary of eight bytes,
/// value by value, low byte first.
pub proof fn law_arrays_lie_where_their_table_says(arrays: Seq<StoredArray>, i: int, j: int)
    requires
        0 <= i < arrays.len(),
        0 <= j < arrays[i].values.len(),
        array_bytes(arrays).len() <= u64::MAX,
    ensures
        ({
            let place = array_table(arrays)[i];
            let width = arrays[i].kind.width() as int;
            let at = place.offset + j * width;
            &&& place.offset % 8 == 0
            &&& at + width <= array_bytes(arrays).len()
            &&& array_bytes(arrays).subrange(at, at + width) == le_bytes(
                arrays[i].values[j],
                arrays[i].kind.width(),
            )
        }),
{
    let start = array_start(arrays.subrange(0, i)) as int;
    let width = arrays[i].kind.width() as int;
    let length = arrays[i].values.len() * arrays[i].kind.width();
    lemma_array_starts(arrays, i);
    lemma_array_at(arrays, i);
    lemma_value_at(arrays[i].values, arrays[i].kind.width(), j);
    lemma_aligned(array_bytes(arrays.subrange(0, i)).len(), ARRAY_ALIGNMENT as nat);
    let own = array_bytes(arrays).subrange(start, start + length);
    assert((j + 1) * width == j * width + width) by (nonlinear_arith);
    assert(array_bytes(arrays).subrange(start + j * width, start + j * width + width)
        =~= own.subrange(j * width, (j + 1) * width));
}

} // verus!
