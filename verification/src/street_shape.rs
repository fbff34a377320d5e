//! The shape tier of street validation: everything that the decoded META
//! alone can say about the STREETS section, so that a mapped load stays lazy.

use crate::bytes::{f64_is_cost, f64_is_fraction, is_cost, is_fraction, lemma_le_bytes_len};
use crate::container::{aligned, corrupted, corrupted_text, lemma_aligned, zeros};
use crate::street_arrays::{
    array_bytes, array_start, array_table, attribute_arrays, car_arrays, core_arrays,
    elevation_arrays, encode_streets, value_bytes, padded, stored_arrays, ArrayDescriptor,
    ArrayKind, StoredArray, StoredLink, StreetArray, StreetModel, StreetNetworkParts,
    ARRAY_ALIGNMENT, OPTIONAL_STREET_ARRAY_ORDER, STREET_ARRAY_ORDER,
};
use crate::text::ValueError;
use vstd::prelude::*;

verus! {

/// Provenance of the sampled elevations: enough to know what the numbers
/// mean without re-reading the DEM. Interval and coverage are doubles' bits.
pub struct ElevationMeta {
    pub source: String,
    pub sampling_interval: u64,
    pub nodata_policy: String,
    pub coverage: u64,
    pub inferred_edges: u32,
}

/// The street layer's decoded state: link records, scalars, and the
/// descriptor table locating every raw array inside the STREETS section.
pub struct StreetsMeta {
    pub vertex_count: u32,
    pub links: Vec<StoredLink>,
    pub descriptors: Vec<ArrayDescriptor>,
    pub elevation: Option<ElevationMeta>,
}

/// The low 32 bits of a position.
pub open spec fn low_word(position: nat) -> u32 {
    (position % 0x1_0000_0000) as u32
}

/// The ends of the levels of a packed tree with fan-out 16, from the level
/// of `size` nodes that starts at `start` up to the root.
pub open spec fn level_ends(start: nat, size: nat) -> Seq<u32>
    decreases size,
{
    if size <= 1 {
        seq![low_word(start + size)]
    } else {
        seq![low_word(start + size)] + level_ends(start + size, (size + 15) / 16)
    }
}

/// The level-start table of a packed index with that many leaves: where each
/// level starts, leaves first, and the node count at the end.
pub open spec fn level_starts(leaves: nat) -> Seq<u32> {
    seq![0u32] + level_ends(0, leaves)
}

/// The level-start table a packed index with `leaves` leaves must carry.
pub fn expected_level_starts(leaves: usize) -> (levels: Vec<u32>)
    requires
        leaves <= usize::MAX / 2,
    ensures
        levels@ == level_starts(leaves as nat),
{
    let mut levels: Vec<u32> = Vec::new();
    levels.push(0);
    let mut start: u64 = 0;
    let mut size: u64 = leaves as u64;
    while size > 1
        invariant
            start + 2 * size <= 2 * leaves <= usize::MAX,
            levels@ + level_ends(start as nat, size as nat) == level_starts(leaves as nat),
        decreases size,
    {
        let ghost before = levels@;
        levels.push(((start + size) % 0x1_0000_0000) as u32);
        proof {
            assert(levels@ + level_ends((start + size) as nat, ((size + 15) / 16) as nat)
                =~= before + level_ends(start as nat, size as nat));
        }
        start = start + size;
        size = size / 16 + if size % 16 == 0 {
            0
        } else {
            1
        };
    }
    let ghost before = levels@;
    levels.push(((start + size) % 0x1_0000_0000) as u32);
    assert(levels@ =~= before + level_ends(start as nat, size as nat));
    levels
}

proof fn lemma_level_starts_last(leaves: nat)
    ensures
        level_starts(leaves).len() >= 2,
{
    assert(level_ends(0, leaves).len() >= 1);
}

/// One past the last byte of an array.
pub open spec fn extent_end(descriptor: ArrayDescriptor) -> nat {
    descriptor.offset as nat + descriptor.count as nat * descriptor.kind.width()
}

/// Position of an array in the canonical optional order; 9 for a core array.
pub open spec fn optional_rank(array: StreetArray) -> int {
    match array {
        StreetArray::AdjAccess => 0,
        StreetArray::AdjFacility => 1,
        StreetArray::EdgeHighway => 2,
        StreetArray::EdgeSurface => 3,
        StreetArray::EdgeSmoothness => 4,
        StreetArray::EdgeFlags => 5,
        StreetArray::CoordinateElevations => 6,
        StreetArray::AdjCarSpeed => 7,
        StreetArray::AdjJunction => 8,
        _ => 9,
    }
}

/// The core arrays come first, in their fixed order and kinds.
pub open spec fn core_in_order(descriptors: Seq<ArrayDescriptor>) -> bool {
    &&& descriptors.len() >= 13
    &&& forall|i: int|
        #![trigger descriptors[i]]
        0 <= i < 13 ==> descriptors[i].array == STREET_ARRAY_ORDER@[i].0 && descriptors[i].kind
            == STREET_ARRAY_ORDER@[i].1
}

/// The arrays behind them are optional ones of their right kinds, in the
/// canonical order: any absent, but never reordered or duplicated.
pub open spec fn optional_in_order(descriptors: Seq<ArrayDescriptor>) -> bool {
    &&& forall|i: int|
        #![trigger descriptors[i]]
        13 <= i < descriptors.len() ==> {
            let rank = optional_rank(descriptors[i].array);
            rank < 9 && descriptors[i].kind == OPTIONAL_STREET_ARRAY_ORDER@[rank].1
        }
    &&& forall|i: int, j: int|
        #![trigger descriptors[i], descriptors[j]]
        13 <= i < j < descriptors.len() ==> optional_rank(descriptors[i].array) < optional_rank(
            descriptors[j].array,
        )
}

/// Where array `i` of a block must start: at the block's start, or on the
/// next boundary behind the array before.
pub open spec fn block_offset(descriptors: Seq<ArrayDescriptor>, i: int, start: nat) -> nat {
    if i == 0 {
        start
    } else {
        aligned(extent_end(descriptors[i - 1]), ARRAY_ALIGNMENT as nat)
    }
}

/// The arrays occupy the section exactly as the writer lays them out:
/// sequential, no gaps, overlaps or aliasing, none past the section end.
pub open spec fn laid_out(
    descriptors: Seq<ArrayDescriptor>,
    start: nat,
    section_length: nat,
) -> bool {
    forall|i: int|
        #![trigger descriptors[i]]
        0 <= i < descriptors.len() ==> descriptors[i].offset == block_offset(descriptors, i, start)
            && extent_end(descriptors[i]) <= section_length
}

/// One past the last byte of a block.
pub open spec fn block_end(descriptors: Seq<ArrayDescriptor>, start: nat) -> nat {
    if descriptors.len() == 0 {
        start
    } else {
        extent_end(descriptors.last())
    }
}

/// The core counts fit each other and the vertex count: two slots per edge,
/// offsets one longer than what they index, one tree leaf per consecutive
/// coordinate pair, the tree shaped as its builder shapes it.
pub open spec fn counts_consistent(vertex_count: u32, descriptors: Seq<ArrayDescriptor>) -> bool {
    let slots = descriptors[1].count;
    let edges = descriptors[5].count;
    let coordinates = descriptors[7].count;
    let leaves = descriptors[11].count / 2;
    let levels = level_starts(leaves as nat);
    &&& descriptors[0].count == vertex_count + 1
    &&& slots == 2 * edges
    &&& descriptors[2].count == slots
    &&& descriptors[3].count == slots
    &&& descriptors[4].count == slots
    &&& descriptors[6].count == edges + 1
    &&& descriptors[8].count == coordinates
    &&& descriptors[9].count == coordinates
    &&& descriptors[10].count == 4 * levels.last()
    &&& descriptors[11].count % 2 == 0
    &&& leaves + edges == coordinates
    &&& descriptors[12].count == levels.len()
}

/// The first descriptor of an array at or behind position `from`.
pub open spec fn find_array(
    descriptors: Seq<ArrayDescriptor>,
    array: StreetArray,
    from: int,
) -> Option<int>
    decreases descriptors.len() - from,
{
    if from >= descriptors.len() {
        None
    } else if descriptors[from].array == array {
        Some(from)
    } else {
        find_array(descriptors, array, from + 1)
    }
}

/// Whether an optional array is stored.
pub open spec fn present(descriptors: Seq<ArrayDescriptor>, array: StreetArray) -> bool {
    find_array(descriptors, array, 13) is Some
}

pub open spec fn any_attribute(descriptors: Seq<ArrayDescriptor>) -> bool {
    present(descriptors, StreetArray::AdjAccess) || present(descriptors, StreetArray::AdjFacility)
        || present(descriptors, StreetArray::EdgeHighway) || present(
        descriptors,
        StreetArray::EdgeSurface,
    ) || present(descriptors, StreetArray::EdgeSmoothness) || present(
        descriptors,
        StreetArray::EdgeFlags,
    )
}

pub open spec fn every_attribute(descriptors: Seq<ArrayDescriptor>) -> bool {
    present(descriptors, StreetArray::AdjAccess) && present(descriptors, StreetArray::AdjFacility)
        && present(descriptors, StreetArray::EdgeHighway) && present(
        descriptors,
        StreetArray::EdgeSurface,
    ) && present(descriptors, StreetArray::EdgeSmoothness) && present(
        descriptors,
        StreetArray::EdgeFlags,
    )
}

pub open spec fn any_car(descriptors: Seq<ArrayDescriptor>) -> bool {
    present(descriptors, StreetArray::AdjCarSpeed) || present(
        descriptors,
        StreetArray::AdjJunction,
    )
}

pub open spec fn every_car(descriptors: Seq<ArrayDescriptor>) -> bool {
    present(descriptors, StreetArray::AdjCarSpeed) && present(
        descriptors,
        StreetArray::AdjJunction,
    )
}

/// An optional array is absent or has the expected length.
pub open spec fn optional_length(
    descriptors: Seq<ArrayDescriptor>,
    array: StreetArray,
    expected: u64,
) -> bool {
    match find_array(descriptors, array, 13) {
        Some(at) => descriptors[at].count == expected,
        None => true,
    }
}

/// Every stored optional array matches the graph's slot, edge or coordinate
/// count.
pub open spec fn optional_lengths(descriptors: Seq<ArrayDescriptor>) -> bool {
    let slots = descriptors[1].count;
    let edges = descriptors[5].count;
    let coordinates = descriptors[7].count;
    &&& optional_length(descriptors, StreetArray::AdjAccess, slots)
    &&& optional_length(descriptors, StreetArray::AdjFacility, slots)
    &&& optional_length(descriptors, StreetArray::EdgeHighway, edges)
    &&& optional_length(descriptors, StreetArray::EdgeSurface, edges)
    &&& optional_length(descriptors, StreetArray::EdgeSmoothness, edges)
    &&& optional_length(descriptors, StreetArray::EdgeFlags, edges)
    &&& optional_length(descriptors, StreetArray::CoordinateElevations, coordinates)
    &&& optional_length(descriptors, StreetArray::AdjCarSpeed, slots)
    &&& optional_length(descriptors, StreetArray::AdjJunction, slots)
}

/// A link names an edge, a stop and vertices that exist, a fraction of the
/// edge and a connector length.
pub open spec fn link_in_range(
    link: StoredLink,
    edges: u64,
    stop_count: u32,
    vertex_count: u32,
) -> bool {
    &&& link.edge < edges
    &&& link.stop < stop_count
    &&& f64_is_fraction(link.fraction)
    &&& f64_is_cost(link.connector)
    &&& link.from < vertex_count
    &&& link.to < vertex_count
}

pub open spec fn links_in_range(
    links: Seq<StoredLink>,
    edges: u64,
    stop_count: u32,
    vertex_count: u32,
) -> bool {
    forall|i: int|
        #![trigger links[i]]
        0 <= i < links.len() ==> link_in_range(links[i], edges, stop_count, vertex_count)
}

/// What is wrong with a street layer's shape, if anything: the first of the
/// findings, in the order a load reports them.
pub open spec fn shape_fault(
    vertex_count: u32,
    links: Seq<StoredLink>,
    descriptors: Seq<ArrayDescriptor>,
    start: nat,
    section_length: nat,
    stop_count: u32,
) -> Option<Seq<char>> {
    if !core_in_order(descriptors) || !optional_in_order(descriptors) {
        Some("street descriptor table shape"@)
    } else if !laid_out(descriptors, start, section_length) {
        Some("street array bounds"@)
    } else if !counts_consistent(vertex_count, descriptors) {
        Some("street array consistency"@)
    } else if any_attribute(descriptors) && !every_attribute(descriptors) {
        Some("street attribute group"@)
    } else if any_car(descriptors) && (!every_car(descriptors) || !any_attribute(descriptors)) {
        Some("street car group"@)
    } else if !optional_lengths(descriptors) {
        Some("street array consistency"@)
    } else if !links_in_range(links, descriptors[5].count, stop_count, vertex_count) {
        Some("street link records"@)
    } else {
        None
    }
}

/// The position of the first descriptor of `array` at or behind `from`.
pub fn find_descriptor(descriptors: &[ArrayDescriptor], array: StreetArray, from: usize) -> (found:
    Option<usize>)
    ensures
        match found {
            Some(at) => find_array(descriptors@, array, from as int) == Some(at as int) && at
                < descriptors@.len() && descriptors@[at as int].array == array && at >= from,
            None => find_array(descriptors@, array, from as int) is None,
        },
{
    let mut at: usize = from;
    while at < descriptors.len()
        invariant
            from <= at,
            find_array(descriptors@, array, from as int) == find_array(
                descriptors@,
                array,
                at as int,
            ),
        decreases descriptors.len() - at,
    {
        if descriptors[at].array == array {
            return Some(at);
        }
        at += 1;
    }
    None
}

fn table_in_order(descriptors: &[ArrayDescriptor]) -> (ordered: bool)
    ensures
        ordered == (core_in_order(descriptors@) && optional_in_order(descriptors@)),
{
    let core: [(StreetArray, ArrayKind); 13] = STREET_ARRAY_ORDER;
    let optional: [(StreetArray, ArrayKind); 9] = OPTIONAL_STREET_ARRAY_ORDER;
    if descriptors.len() < 13 {
        return false;
    }
    let mut index: usize = 0;
    while index < 13
        invariant
            index <= 13 <= descriptors@.len(),
            core@ == STREET_ARRAY_ORDER@,
            forall|i: int|
                #![trigger descriptors@[i]]
                0 <= i < index ==> descriptors@[i].array == core@[i].0 && descriptors@[i].kind
                    == core@[i].1,
        decreases 13 - index,
    {
        if descriptors[index].array != core[index].0 || descriptors[index].kind != core[index].1 {
            assert(!core_in_order(descriptors@));
            return false;
        }
        index += 1;
    }
    let mut expected: usize = 0;
    while index < descriptors.len()
        invariant
            13 <= index <= descriptors@.len(),
            expected <= 9,
            optional@ == OPTIONAL_STREET_ARRAY_ORDER@,
            forall|i: int|
                #![trigger descriptors@[i]]
                13 <= i < index ==> {
                    let rank = optional_rank(descriptors@[i].array);
                    rank < expected && descriptors@[i].kind == optional@[rank].1
                },
            index > 13 ==> expected == optional_rank(descriptors@[index - 1].array) + 1,
            index == 13 ==> expected == 0,
            forall|i: int, j: int|
                #![trigger descriptors@[i], descriptors@[j]]
                13 <= i < j < index ==> optional_rank(descriptors@[i].array) < optional_rank(
                    descriptors@[j].array,
                ),
        decreases descriptors.len() - index,
    {
        let descriptor: ArrayDescriptor = descriptors[index];
        let ghost before = expected;
        while expected < 9 && descriptor.array != optional[expected].0
            invariant
                before <= expected <= 9,
                optional@ == OPTIONAL_STREET_ARRAY_ORDER@,
                optional_rank(descriptor.array) < before || optional_rank(descriptor.array)
                    >= expected,
            decreases 9 - expected,
        {
            expected += 1;
        }
        if expected == 9 {
            proof {
                if optional_in_order(descriptors@) {
                    assert(optional_rank(descriptors@[index as int].array) < 9);
                    if index > 13 {
                        assert(optional_rank(descriptors@[index - 1].array) < optional_rank(
                            descriptors@[index as int].array,
                        ));
                    }
                }
            }
            return false;
        }
        assert(optional_rank(descriptor.array) == expected);
        if descriptor.kind != optional[expected].1 {
            proof {
                if optional_in_order(descriptors@) {
                    assert(descriptors@[index as int].kind == optional@[expected as int].1);
                }
            }
            return false;
        }
        expected += 1;
        index += 1;
    }
    true
}

/// The end of the block, where the arrays are laid out as they should be.
fn layout_end(descriptors: &[ArrayDescriptor], start: u64, section_length: u64) -> (end:
    Option<u64>)
    requires
        section_length <= u64::MAX - 7,
    ensures
        end is Some == laid_out(descriptors@, start as nat, section_length as nat),
        end is Some ==> end->0 == block_end(descriptors@, start as nat),
{
    let mut expected: u64 = start;
    let mut last_end: u64 = start;
    let mut index: usize = 0;
    while index < descriptors.len()
        invariant
            index <= descriptors@.len(),
            section_length <= u64::MAX - 7,
            expected == block_offset(descriptors@, index as int, start as nat),
            last_end == block_end(descriptors@.subrange(0, index as int), start as nat),
            forall|i: int|
                #![trigger descriptors@[i]]
                0 <= i < index ==> descriptors@[i].offset == block_offset(
                    descriptors@,
                    i,
                    start as nat,
                ) && extent_end(descriptors@[i]) <= section_length,
        decreases descriptors.len() - index,
    {
        let descriptor: ArrayDescriptor = descriptors[index];
        let extent: Option<u64> = match descriptor.count.checked_mul(descriptor.kind.size()) {
            Some(length) => descriptor.offset.checked_add(length),
            None => None,
        };
        assert(descriptors@[index as int] == descriptor);
        let end: u64 = match extent {
            Some(end) => end,
            None => {
                return None;
            },
        };
        if end > section_length || descriptor.offset != expected {
            return None;
        }
        last_end = end;
        proof {
            lemma_aligned(end as nat, ARRAY_ALIGNMENT as nat);
            assert(descriptors@.subrange(0, index + 1).last() == descriptor);
        }
        expected = (end + 7) / ARRAY_ALIGNMENT * ARRAY_ALIGNMENT;
        index += 1;
    }
    assert(descriptors@.subrange(0, descriptors@.len() as int) =~= descriptors@);
    Some(last_end)
}

fn is_present(descriptors: &[ArrayDescriptor], array: StreetArray) -> (found: bool)
    ensures
        found == present(descriptors@, array),
{
    find_descriptor(descriptors, array, 13).is_some()
}

fn has_length(descriptors: &[ArrayDescriptor], array: StreetArray, expected: u64) -> (matches: bool)
    ensures
        matches == optional_length(descriptors@, array, expected),
{
    match find_descriptor(descriptors, array, 13) {
        Some(at) => descriptors[at].count == expected,
        None => true,
    }
}

fn links_hold(links: &[StoredLink], edges: u64, stop_count: u32, vertex_count: u32) -> (hold: bool)
    ensures
        hold == links_in_range(links@, edges, stop_count, vertex_count),
{
    let mut index: usize = 0;
    while index < links.len()
        invariant
            index <= links@.len(),
            forall|i: int|
                #![trigger links@[i]]
                0 <= i < index ==> link_in_range(links@[i], edges, stop_count, vertex_count),
        decreases links.len() - index,
    {
        let link: StoredLink = links[index];
        if link.edge as u64 >= edges || link.stop >= stop_count || !is_fraction(link.fraction)
            || !is_cost(link.connector) || link.from >= vertex_count || link.to >= vertex_count {
            assert(!link_in_range(links@[index as int], edges, stop_count, vertex_count));
            return false;
        }
        index += 1;
    }
    true
}

/// The level-start table of the index, where the core counts fit each other.
fn consistent_levels(vertex_count: u32, descriptors: &[ArrayDescriptor], section_length: u64) -> (
    levels: Option<Vec<u32>>)
    requires
        section_length <= usize::MAX - 7,
        core_in_order(descriptors@),
        forall|i: int|
            #![trigger descriptors@[i]]
            0 <= i < descriptors@.len() ==> extent_end(descriptors@[i]) <= section_length,
    ensures
        levels is Some == counts_consistent(vertex_count, descriptors@),
        levels matches Some(levels) ==> levels@ == level_starts(
            (descriptors@[11].count / 2) as nat,
        ),
{
    let slots: u64 = descriptors[1].count;
    let edges: u64 = descriptors[5].count;
    let coordinates: u64 = descriptors[7].count;
    let leaves: u64 = descriptors[11].count / 2;
    proof {
        assert(extent_end(descriptors@[11]) <= section_length);
        assert(extent_end(descriptors@[5]) <= section_length);
        assert(descriptors@[11].kind == STREET_ARRAY_ORDER@[11].1);
        assert(descriptors@[5].kind == STREET_ARRAY_ORDER@[5].1);
        assert(descriptors@[11].kind.width() == 4);
        assert(descriptors@[5].kind.width() == 8);
    }
    let levels = expected_level_starts(leaves as usize);
    proof {
        lemma_level_starts_last(leaves as nat);
    }
    let nodes: u32 = levels[levels.len() - 1];
    let consistent: bool = descriptors[0].count == vertex_count as u64 + 1 && descriptors[2].count
        == slots && descriptors[3].count == slots && slots == 2 * edges && descriptors[4].count
        == slots && descriptors[6].count == edges + 1 && descriptors[8].count == coordinates
        && descriptors[9].count == coordinates && descriptors[11].count % 2 == 0 && coordinates
        >= edges && leaves == coordinates - edges && descriptors[12].count == levels.len() as u64
        && descriptors[10].count == 4 * (nodes as u64);
    if consistent {
        Some(levels)
    } else {
        None
    }
}

/// Whether any of the attribute arrays is stored, and whether all are.
fn attribute_group(descriptors: &[ArrayDescriptor]) -> (group: (bool, bool))
    ensures
        group.0 == any_attribute(descriptors@),
        group.1 == every_attribute(descriptors@),
{
    let access: bool = is_present(descriptors, StreetArray::AdjAccess);
    let facility: bool = is_present(descriptors, StreetArray::AdjFacility);
    let highway: bool = is_present(descriptors, StreetArray::EdgeHighway);
    let surface: bool = is_present(descriptors, StreetArray::EdgeSurface);
    let smoothness: bool = is_present(descriptors, StreetArray::EdgeSmoothness);
    let flags: bool = is_present(descriptors, StreetArray::EdgeFlags);
    (
        access || facility || highway || surface || smoothness || flags,
        access && facility && highway && surface && smoothness && flags,
    )
}

fn optional_lengths_hold(descriptors: &[ArrayDescriptor]) -> (hold: bool)
    requires
        descriptors@.len() >= 13,
    ensures
        hold == optional_lengths(descriptors@),
{
    let slots: u64 = descriptors[1].count;
    let edges: u64 = descriptors[5].count;
    let coordinates: u64 = descriptors[7].count;
    has_length(descriptors, StreetArray::AdjAccess, slots) && has_length(
        descriptors,
        StreetArray::AdjFacility,
        slots,
    ) && has_length(descriptors, StreetArray::EdgeHighway, edges) && has_length(
        descriptors,
        StreetArray::EdgeSurface,
        edges,
    ) && has_length(descriptors, StreetArray::EdgeSmoothness, edges) && has_length(
        descriptors,
        StreetArray::EdgeFlags,
        edges,
    ) && has_length(descriptors, StreetArray::CoordinateElevations, coordinates) && has_length(
        descriptors,
        StreetArray::AdjCarSpeed,
        slots,
    ) && has_length(descriptors, StreetArray::AdjJunction, slots)
}

/// Validates a street layer from the decoded META alone: descriptor order,
/// sequential aligned layout inside the section from `block_start` on,
/// counts mutually consistent (so no query indexes out of an array), and
/// well-formed link records — without touching a single STREETS byte.
/// Returns the level-start table the index must carry and the block's end
/// byte, which the caller holds against what follows.
pub fn validate_street_shape(
    path: &str,
    meta: &StreetsMeta,
    block_start: u64,
    section_length: u64,
    stop_count: u32,
) -> (shape: Result<(Vec<u32>, u64), ValueError>)
    requires
        section_length <= usize::MAX - 7,
    ensures
        match shape_fault(
            meta.vertex_count,
            meta.links@,
            meta.descriptors@,
            block_start as nat,
            section_length as nat,
            stop_count,
        ) {
            Some(what) => shape matches Err(error) && error.message@ == corrupted_text(path@, what),
            None => shape matches Ok((levels, end)) && levels@ == level_starts(
                (meta.descriptors@[11].count / 2) as nat,
            ) && end == block_end(meta.descriptors@, block_start as nat),
        },
{
    let descriptors = meta.descriptors.as_slice();
    if !table_in_order(descriptors) {
        return Err(corrupted(path, "street descriptor table shape"));
    }
    let end: u64 = match layout_end(descriptors, block_start, section_length) {
        Some(end) => end,
        None => {
            return Err(corrupted(path, "street array bounds"));
        },
    };
    let levels = match consistent_levels(meta.vertex_count, descriptors, section_length) {
        Some(levels) => levels,
        None => {
            return Err(corrupted(path, "street array consistency"));
        },
    };
    let (any_attributes, all_attributes) = attribute_group(descriptors);
    if any_attributes && !all_attributes {
        return Err(corrupted(path, "street attribute group"));
    }
    let speeds: bool = is_present(descriptors, StreetArray::AdjCarSpeed);
    let junctions: bool = is_present(descriptors, StreetArray::AdjJunction);
    if (speeds || junctions) && (!(speeds && junctions) || !any_attributes) {
        return Err(corrupted(path, "street car group"));
    }
    if !optional_lengths_hold(descriptors) {
        return Err(corrupted(path, "street array consistency"));
    }
    let edges: u64 = descriptors[5].count;
    if !links_hold(meta.links.as_slice(), edges, stop_count, meta.vertex_count) {
        return Err(corrupted(path, "street link records"));
    }
    Ok((levels, end))
}

/// Where the multimodal block begins inside the STREETS section: its first
/// descriptor's offset (0 for an empty table, which the shape validation
/// then rejects).
pub fn multimodal_block_start(meta: &StreetsMeta) -> (start: u64)
    ensures
        start == block_start_of(meta.descriptors@),
{
    if meta.descriptors.len() == 0 {
        0
    } else {
        meta.descriptors[0].offset
    }
}

pub open spec fn block_start_of(descriptors: Seq<ArrayDescriptor>) -> u64 {
    if descriptors.len() == 0 {
        0
    } else {
        descriptors[0].offset
    }
}

/// Whether a block ends where it should: (aligned) exactly where the next
/// block starts, or at the section end when nothing follows.
pub open spec fn boundary_holds(end: nat, next_block: Option<u64>, section_length: u64) -> bool {
    match next_block {
        Some(next) => end == next || aligned(end, ARRAY_ALIGNMENT as nat) == next,
        None => end == section_length,
    }
}

/// Trailing garbage stays rejected with two blocks just as with one.
pub fn check_block_boundary(
    path: &str,
    block_end: u64,
    next_block: Option<u64>,
    section_length: u64,
) -> (checked: Result<(), ValueError>)
    requires
        block_end <= u64::MAX - 7,
    ensures
        checked is Ok == boundary_holds(block_end as nat, next_block, section_length),
        checked matches Err(error) ==> error.message@ == corrupted_text(
            path@,
            "street array bounds"@,
        ),
{
    proof {
        lemma_aligned(block_end as nat, ARRAY_ALIGNMENT as nat);
    }
    let aligned_end: u64 = (block_end + 7) / ARRAY_ALIGNMENT * ARRAY_ALIGNMENT;
    let holds: bool = match next_block {
        Some(next) => block_end == next || aligned_end == next,
        None => block_end == section_length,
    };
    if holds {
        Ok(())
    } else {
        Err(corrupted(path, "street array bounds"))
    }
}

/// A table whose arrays moved `base` bytes further into the section.
pub open spec fn shifted(descriptors: Seq<ArrayDescriptor>, base: nat) -> Seq<ArrayDescriptor> {
    descriptors.map_values(
        |descriptor: ArrayDescriptor|
            ArrayDescriptor { offset: (descriptor.offset + base) as u64, ..descriptor },
    )
}

/// The bytes of the walking graph's block; nothing without one.
pub open spec fn walking_bytes(walking: Option<StreetModel>) -> Seq<u8> {
    match walking {
        Some(streets) => array_bytes(stored_arrays(streets)),
        None => Seq::empty(),
    }
}

/// The STREETS section: the walking block, then the multimodal block on the
/// next array boundary.
pub open spec fn section_bytes(
    walking: Option<StreetModel>,
    multimodal: Option<StreetModel>,
) -> Seq<u8> {
    match multimodal {
        Some(streets) => padded(walking_bytes(walking)) + array_bytes(stored_arrays(streets)),
        None => walking_bytes(walking),
    }
}

/// Whether a meta record describes a network stored from `base` on.
pub open spec fn describes(meta: StreetsMeta, streets: StreetModel, base: nat) -> bool {
    &&& meta.vertex_count == streets.vertex_count
    &&& meta.links@ == streets.links
    &&& meta.descriptors@ == shifted(array_table(stored_arrays(streets)), base)
}

pub open spec fn model_of(parts: Option<StreetNetworkParts>) -> Option<StreetModel> {
    match parts {
        Some(parts) => Some(parts@),
        None => None,
    }
}

pub fn copy_links(links: &[StoredLink]) -> (copy: Vec<StoredLink>)
    ensures
        copy@ == links@,
{
    let mut copy: Vec<StoredLink> = Vec::new();
    let mut index: usize = 0;
    while index < links.len()
        invariant
            index <= links@.len(),
            copy@ == links@.subrange(0, index as int),
        decreases links.len() - index,
    {
        copy.push(links[index]);
        index += 1;
        assert(copy@ =~= links@.subrange(0, index as int));
    }
    assert(links@.subrange(0, links@.len() as int) =~= links@);
    copy
}

/// An array starts no further than its table's bytes reach.
pub proof fn lemma_array_starts(arrays: Seq<StoredArray>, i: int)
    requires
        0 <= i < arrays.len(),
    ensures
        array_start(arrays.subrange(0, i)) <= array_bytes(arrays).len(),
    decreases arrays.len(),
{
    let before = arrays.drop_last();
    lemma_aligned(array_bytes(before).len(), ARRAY_ALIGNMENT as nat);
    if i == arrays.len() - 1 {
        assert(arrays.subrange(0, i) =~= before);
    } else {
        assert(arrays.subrange(0, i) =~= before.subrange(0, i));
        lemma_array_starts(before, i);
    }
}

/// The STREETS section as a save lays it out, with both graphs' metadata.
/// Elevations belong to the multimodal graph; the walking graph carries
/// none. The multimodal descriptors hold their final section-relative
/// offsets, so a load reads both graphs through the same machinery.
pub fn encode_street_sections(
    walking: &Option<StreetNetworkParts>,
    multimodal: &Option<StreetNetworkParts>,
    elevation: Option<ElevationMeta>,
) -> (encoded: (Option<StreetsMeta>, Option<StreetsMeta>, Vec<u8>))
    requires
        section_bytes(model_of(*walking), model_of(*multimodal)).len() <= usize::MAX,
    ensures
        encoded.2@ == section_bytes(model_of(*walking), model_of(*multimodal)),
        match *walking {
            Some(parts) => encoded.0 matches Some(meta) && describes(meta, parts@, 0)
                && meta.elevation is None,
            None => encoded.0 is None,
        },
        match *multimodal {
            Some(parts) => encoded.1 matches Some(meta) && describes(
                meta,
                parts@,
                padded(walking_bytes(model_of(*walking))).len(),
            ) && meta.elevation == elevation,
            None => encoded.1 is None,
        },
{
    let (walking_meta, mut bytes) = match walking {
        Some(parts) => {
            let (descriptors, bytes) = encode_streets(parts);
            let meta = StreetsMeta {
                vertex_count: parts.vertex_count,
                links: copy_links(parts.links.as_slice()),
                descriptors,
                elevation: None,
            };
            assert(meta.descriptors@ =~= shifted(array_table(stored_arrays(parts@)), 0));
            (Some(meta), bytes)
        },
        None => (None, Vec::new()),
    };
    let multimodal_meta = match multimodal {
        Some(parts) => {
            let ghost start = bytes@;
            proof {
                lemma_aligned(start.len(), ARRAY_ALIGNMENT as nat);
                assert(start + zeros(0) =~= start);
            }
            while bytes.len() as u64 % ARRAY_ALIGNMENT != 0
                invariant
                    start.len() <= bytes@.len() <= aligned(start.len(), ARRAY_ALIGNMENT as nat),
                    aligned(start.len(), ARRAY_ALIGNMENT as nat) % 8 == 0,
                    aligned(start.len(), ARRAY_ALIGNMENT as nat) < start.len() + 8,
                    bytes@ == start + zeros((bytes@.len() - start.len()) as nat),
                decreases aligned(start.len(), ARRAY_ALIGNMENT as nat) - bytes@.len(),
            {
                bytes.push(0);
                assert(bytes@ =~= start + zeros((bytes@.len() - start.len()) as nat));
            }
            assert(bytes@ == padded(start));
            let base: u64 = bytes.len() as u64;
            let (table, block) = encode_streets(parts);
            let descriptors = shift_table(
                table.as_slice(),
                base,
                Ghost(stored_arrays(parts@)),
            );
            bytes.extend_from_slice(block.as_slice());
            assert(bytes@ =~= section_bytes(model_of(*walking), model_of(*multimodal)));
            Some(
                StreetsMeta {
                    vertex_count: parts.vertex_count,
                    links: copy_links(parts.links.as_slice()),
                    descriptors,
                    elevation,
                },
            )
        },
        None => None,
    };
    (walking_meta, multimodal_meta, bytes)
}

fn shift_table(
    table: &[ArrayDescriptor],
    base: u64,
    Ghost(arrays): Ghost<Seq<StoredArray>>,
) -> (descriptors: Vec<ArrayDescriptor>)
    requires
        table@ == array_table(arrays),
        base + array_bytes(arrays).len() <= u64::MAX,
    ensures
        descriptors@ == shifted(table@, base as nat),
{
    let mut descriptors: Vec<ArrayDescriptor> = Vec::new();
    let mut index: usize = 0;
    while index < table.len()
        invariant
            index <= table@.len(),
            table@ == array_table(arrays),
            base + array_bytes(arrays).len() <= u64::MAX,
            descriptors@ == shifted(table@, base as nat).subrange(0, index as int),
        decreases table.len() - index,
    {
        let descriptor: ArrayDescriptor = table[index];
        proof {
            lemma_array_starts(arrays, index as int);
        }
        descriptors.push(ArrayDescriptor { offset: descriptor.offset + base, ..descriptor });
        index += 1;
        assert(descriptors@ =~= shifted(table@, base as nat).subrange(0, index as int));
    }
    assert(descriptors@ =~= shifted(table@, base as nat));
    descriptors
}

/// The arrays of a network fit each other: what the shape tier asks of a
/// stored table, said of the arrays themselves.
pub open spec fn parts_consistent(streets: StreetModel) -> bool {
    let edges = streets.lengths.len();
    let slots = 2 * edges;
    let coordinates = streets.lons.len();
    let leaves = streets.index_payload.len() / 2;
    let levels = level_starts(leaves);
    &&& streets.adjacency_offsets.len() == streets.vertex_count + 1
    &&& streets.adj_targets.len() == slots
    &&& streets.adj_meters.len() == slots
    &&& streets.adj_edges.len() == slots
    &&& streets.endpoints.len() == slots
    &&& streets.coordinate_offsets.len() == edges + 1
    &&& streets.lats.len() == coordinates
    &&& streets.cumulative.len() == coordinates
    &&& streets.index_boxes.len() == 4 * levels.last()
    &&& streets.index_payload.len() % 2 == 0
    &&& leaves + edges == coordinates
    &&& streets.index_level_starts.len() == levels.len()
    &&& streets.attributes matches Some(attributes) ==> {
        &&& attributes.adj_access.len() == slots
        &&& attributes.adj_facility.len() == slots
        &&& attributes.edge_highway.len() == edges
        &&& attributes.edge_surface.len() == edges
        &&& attributes.edge_smoothness.len() == edges
        &&& attributes.edge_flags.len() == edges
    }
    &&& streets.elevations matches Some(elevations) ==> elevations.len() == coordinates
    &&& streets.car matches Some(car) ==> {
        &&& streets.attributes is Some
        &&& car.adj_car_speed.len() == slots
        &&& car.adj_junction.len() == slots
    }
}

pub proof fn lemma_value_bytes_len(values: Seq<nat>, width: nat)
    ensures
        value_bytes(values, width).len() == values.len() * width,
    decreases values.len(),
{
    if values.len() > 0 {
        lemma_value_bytes_len(values.drop_last(), width);
        lemma_le_bytes_len(values.last(), width);
        vstd::arithmetic::mul::lemma_mul_is_distributive_add_other_way(
            width as int,
            values.len() - 1,
            1,
        );
    }
}

/// Where array `i` starts and how far the bytes reach behind it.
pub proof fn lemma_array_extent(arrays: Seq<StoredArray>, i: int)
    requires
        0 <= i < arrays.len(),
    ensures
        array_bytes(arrays.subrange(0, i + 1)).len() == array_start(arrays.subrange(0, i))
            + arrays[i].values.len() * arrays[i].kind.width(),
        array_bytes(arrays.subrange(0, i + 1)).len() <= array_bytes(arrays).len(),
    decreases arrays.len(),
{
    let upto = arrays.subrange(0, i + 1);
    assert(upto.drop_last() =~= arrays.subrange(0, i));
    lemma_aligned(array_bytes(arrays.subrange(0, i)).len(), ARRAY_ALIGNMENT as nat);
    lemma_value_bytes_len(arrays[i].values, arrays[i].kind.width());
    if i < arrays.len() - 1 {
        let before = arrays.drop_last();
        assert(before.subrange(0, i + 1) =~= upto);
        assert(before.subrange(0, i) =~= arrays.subrange(0, i));
        lemma_array_extent(before, i);
        lemma_aligned(array_bytes(before).len(), ARRAY_ALIGNMENT as nat);
    } else {
        assert(upto =~= arrays);
    }
}

proof fn lemma_aligned_shift(position: nat, base: nat)
    requires
        base % 8 == 0,
    ensures
        aligned(position + base, 8) == aligned(position, 8) + base,
{
}

/// Any arrays stored from an aligned base on are laid out as a load expects.
proof fn lemma_table_laid_out(arrays: Seq<StoredArray>, base: nat)
    requires
        base % 8 == 0,
        base + array_bytes(arrays).len() <= u64::MAX,
    ensures
        laid_out(
            shifted(array_table(arrays), base),
            base,
            base + array_bytes(arrays).len(),
        ),
        arrays.len() > 0 ==> block_end(shifted(array_table(arrays), base), base) == base
            + array_bytes(arrays).len(),
        forall|i: int|
            0 <= i < arrays.len() ==> (#[trigger] shifted(array_table(arrays), base)[i]).count
                == arrays[i].values.len(),
{
    let table = shifted(array_table(arrays), base);
    assert forall|i: int| 0 <= i < arrays.len() implies {
        &&& table[i].offset == block_offset(table, i, base)
        &&& extent_end(#[trigger] table[i]) == base + array_bytes(arrays.subrange(0, i + 1)).len()
        &&& extent_end(table[i]) <= base + array_bytes(arrays).len()
        &&& table[i].count == arrays[i].values.len()
    } by {
        lemma_array_extent(arrays, i);
        lemma_array_starts(arrays, i);
        let width = arrays[i].kind.width();
        let count = arrays[i].values.len();
        assert(count <= count * width) by (nonlinear_arith)
            requires
                width >= 1,
        ;
        if i == 0 {
            assert(arrays.subrange(0, 0) =~= Seq::empty());
        } else {
            lemma_array_extent(arrays, i - 1);
            lemma_array_starts(arrays, i - 1);
            let count = arrays[i - 1].values.len();
            let width = arrays[i - 1].kind.width();
            assert(count <= count * width) by (nonlinear_arith)
                requires
                    width >= 1,
            ;
            lemma_aligned_shift(array_bytes(arrays.subrange(0, i)).len(), base);
            assert(extent_end(table[i - 1]) == base + array_bytes(arrays.subrange(0, i)).len());
        }
    }
    if arrays.len() > 0 {
        assert(arrays.subrange(0, arrays.len() as int) =~= arrays);
        assert(extent_end(table[arrays.len() - 1]) == base + array_bytes(arrays).len());
    }
}

pub proof fn lemma_find_at(
    descriptors: Seq<ArrayDescriptor>,
    array: StreetArray,
    from: int,
    at: int,
)
    requires
        from <= at < descriptors.len(),
        descriptors[at].array == array,
        forall|j: int| from <= j < at ==> (#[trigger] descriptors[j]).array != array,
    ensures
        find_array(descriptors, array, from) == Some(at),
    decreases at - from,
{
    if from < at {
        lemma_find_at(descriptors, array, from + 1, at);
    }
}

pub proof fn lemma_find_none(descriptors: Seq<ArrayDescriptor>, array: StreetArray, from: int)
    requires
        forall|j: int| from <= j < descriptors.len() ==> (#[trigger] descriptors[j]).array != array,
    ensures
        find_array(descriptors, array, from) is None,
    decreases descriptors.len() - from,
{
    if from < descriptors.len() {
        lemma_find_none(descriptors, array, from + 1);
    }
}

/// Where the optional arrays stand in a stored table, and that the others
/// are absent.
pub proof fn lemma_optional_positions(streets: StreetModel, table: Seq<ArrayDescriptor>)
    requires
        table.len() == stored_arrays(streets).len(),
        forall|i: int|
            0 <= i < table.len() ==> (#[trigger] table[i]).array == stored_arrays(streets)[i].array,
    ensures
        ({
            let elevation_at = 13 + attribute_arrays(streets.attributes).len();
            let car_at = elevation_at + elevation_arrays(streets.elevations).len();
            &&& find_array(table, StreetArray::AdjAccess, 13) == if streets.attributes is Some {
                Some(13int)
            } else {
                None
            }
            &&& find_array(table, StreetArray::AdjFacility, 13) == if streets.attributes is Some {
                Some(14int)
            } else {
                None
            }
            &&& find_array(table, StreetArray::EdgeHighway, 13) == if streets.attributes is Some {
                Some(15int)
            } else {
                None
            }
            &&& find_array(table, StreetArray::EdgeSurface, 13) == if streets.attributes is Some {
                Some(16int)
            } else {
                None
            }
            &&& find_array(table, StreetArray::EdgeSmoothness, 13)
                == if streets.attributes is Some {
                Some(17int)
            } else {
                None
            }
            &&& find_array(table, StreetArray::EdgeFlags, 13) == if streets.attributes is Some {
                Some(18int)
            } else {
                None
            }
            &&& find_array(table, StreetArray::CoordinateElevations, 13)
                == if streets.elevations is Some {
                Some(elevation_at as int)
            } else {
                None
            }
            &&& find_array(table, StreetArray::AdjCarSpeed, 13) == if streets.car is Some {
                Some(car_at as int)
            } else {
                None
            }
            &&& find_array(table, StreetArray::AdjJunction, 13) == if streets.car is Some {
                Some(car_at as int + 1)
            } else {
                None
            }
        }),
{
    let arrays = stored_arrays(streets);
    let elevation_at = 13 + attribute_arrays(streets.attributes).len();
    let car_at = (elevation_at + elevation_arrays(streets.elevations).len()) as int;
    let absent = table.len() as int;
    assert(core_arrays(streets).len() == 13);
    if streets.attributes is Some {
        assert(arrays[13].array == StreetArray::AdjAccess);
        assert(arrays[14].array == StreetArray::AdjFacility);
        assert(arrays[15].array == StreetArray::EdgeHighway);
        assert(arrays[16].array == StreetArray::EdgeSurface);
        assert(arrays[17].array == StreetArray::EdgeSmoothness);
        assert(arrays[18].array == StreetArray::EdgeFlags);
    }
    if streets.elevations is Some {
        assert(arrays[elevation_at as int].array == StreetArray::CoordinateElevations);
    }
    if streets.car is Some {
        assert(arrays[car_at].array == StreetArray::AdjCarSpeed);
        assert(arrays[car_at + 1].array == StreetArray::AdjJunction);
    }
    lemma_find_optional(
        table,
        StreetArray::AdjAccess,
        if streets.attributes is Some {
            13
        } else {
            absent
        },
    );
    lemma_find_optional(
        table,
        StreetArray::AdjFacility,
        if streets.attributes is Some {
            14
        } else {
            absent
        },
    );
    lemma_find_optional(
        table,
        StreetArray::EdgeHighway,
        if streets.attributes is Some {
            15
        } else {
            absent
        },
    );
    lemma_find_optional(
        table,
        StreetArray::EdgeSurface,
        if streets.attributes is Some {
            16
        } else {
            absent
        },
    );
    lemma_find_optional(
        table,
        StreetArray::EdgeSmoothness,
        if streets.attributes is Some {
            17
        } else {
            absent
        },
    );
    lemma_find_optional(
        table,
        StreetArray::EdgeFlags,
        if streets.attributes is Some {
            18
        } else {
            absent
        },
    );
    lemma_find_optional(
        table,
        StreetArray::CoordinateElevations,
        if streets.elevations is Some {
            elevation_at as int
        } else {
            absent
        },
    );
    lemma_find_optional(
        table,
        StreetArray::AdjCarSpeed,
        if streets.car is Some {
            car_at
        } else {
            absent
        },
    );
    lemma_find_optional(
        table,
        StreetArray::AdjJunction,
        if streets.car is Some {
            car_at + 1
        } else {
            absent
        },
    );
}

proof fn lemma_find_optional(descriptors: Seq<ArrayDescriptor>, array: StreetArray, at: int)
    requires
        13 <= at <= descriptors.len(),
        at < descriptors.len() ==> descriptors[at].array == array,
        forall|j: int| 13 <= j < at ==> (#[trigger] descriptors[j]).array != array,
    ensures
        find_array(descriptors, array, 13) == if at < descriptors.len() {
            Some(at)
        } else {
            None
        },
{
    if at < descriptors.len() {
        lemma_find_at(descriptors, array, 13, at);
    } else {
        lemma_find_none(descriptors, array, 13);
    }
}

proof fn lemma_table_in_order(streets: StreetModel, base: nat)
    ensures
        core_in_order(shifted(array_table(stored_arrays(streets)), base)),
        optional_in_order(shifted(array_table(stored_arrays(streets)), base)),
{
    let arrays = stored_arrays(streets);
    let table = shifted(array_table(arrays), base);
    let core = core_arrays(streets);
    assert(core.len() == 13);
    assert forall|i: int| 0 <= i < 13 implies (#[trigger] table[i]).array
        == STREET_ARRAY_ORDER@[i].0 && table[i].kind == STREET_ARRAY_ORDER@[i].1 by {
        assert(arrays[i] == core[i]);
    }
}

proof fn lemma_core_counts(streets: StreetModel, table: Seq<ArrayDescriptor>)
    requires
        parts_consistent(streets),
        table.len() == stored_arrays(streets).len(),
        forall|i: int|
            0 <= i < table.len() ==> (#[trigger] table[i]).count == stored_arrays(
                streets,
            )[i].values.len(),
    ensures
        table[1].count == 2 * streets.lengths.len(),
        table[5].count == streets.lengths.len(),
        table[7].count == streets.lons.len(),
        counts_consistent(streets.vertex_count, table),
{
    let arrays = stored_arrays(streets);
    let core = core_arrays(streets);
    assert(core.len() == 13);
    assert(forall|i: int| 0 <= i < 13 ==> arrays[i] == core[i]);
    assert(table[0].count == streets.adjacency_offsets.len());
    assert(table[1].count == streets.adj_targets.len());
    assert(table[2].count == streets.adj_meters.len());
    assert(table[3].count == streets.adj_edges.len());
    assert(table[4].count == streets.endpoints.len());
    assert(table[5].count == streets.lengths.len());
    assert(table[6].count == streets.coordinate_offsets.len());
    assert(table[7].count == streets.lons.len());
    assert(table[8].count == streets.lats.len());
    assert(table[9].count == streets.cumulative.len());
    assert(table[10].count == streets.index_boxes.len());
    assert(table[11].count == streets.index_payload.len());
    assert(table[12].count == streets.index_level_starts.len());
}

proof fn lemma_optional_counts(streets: StreetModel, table: Seq<ArrayDescriptor>)
    requires
        parts_consistent(streets),
        table.len() == stored_arrays(streets).len(),
        forall|i: int|
            0 <= i < table.len() ==> (#[trigger] table[i]).array == stored_arrays(streets)[i].array
                && table[i].count == stored_arrays(streets)[i].values.len(),
    ensures
        optional_lengths(table),
        any_attribute(table) == streets.attributes is Some,
        every_attribute(table) == streets.attributes is Some,
        any_car(table) == streets.car is Some,
        every_car(table) == streets.car is Some,
{
    lemma_core_counts(streets, table);
    lemma_optional_positions(streets, table);
    let arrays = stored_arrays(streets);
    let attributes = attribute_arrays(streets.attributes);
    let elevations = elevation_arrays(streets.elevations);
    let car = car_arrays(streets.car);
    assert(core_arrays(streets).len() == 13);
    if streets.attributes is Some {
        assert(arrays[13] == attributes[0]);
        assert(arrays[14] == attributes[1]);
        assert(arrays[15] == attributes[2]);
        assert(arrays[16] == attributes[3]);
        assert(arrays[17] == attributes[4]);
        assert(arrays[18] == attributes[5]);
    }
    let elevation_at = (13 + attributes.len()) as int;
    if streets.elevations is Some {
        assert(arrays[elevation_at] == elevations[0]);
    }
    let car_at = elevation_at + elevations.len();
    if streets.car is Some {
        assert(arrays[car_at] == car[0]);
        assert(arrays[car_at + 1] == car[1]);
    }
}

/// What a save writes passes the shape tier of every load: a network whose
/// arrays fit each other and whose links are in range, stored from any
/// aligned position on, is accepted, and its block ends where its bytes do.
pub proof fn law_encoded_shape_is_accepted(streets: StreetModel, base: nat, stop_count: u32)
    requires
        base % 8 == 0,
        base + array_bytes(stored_arrays(streets)).len() <= u64::MAX,
        parts_consistent(streets),
        links_in_range(
            streets.links,
            streets.lengths.len() as u64,
            stop_count,
            streets.vertex_count,
        ),
    ensures
        ({
            let table = shifted(array_table(stored_arrays(streets)), base);
            let end = base + array_bytes(stored_arrays(streets)).len();
            &&& shape_fault(streets.vertex_count, streets.links, table, base, end, stop_count)
                is None
            &&& block_end(table, base) == end
        }),
{
    let arrays = stored_arrays(streets);
    let table = shifted(array_table(arrays), base);
    lemma_table_in_order(streets, base);
    lemma_table_laid_out(arrays, base);
    lemma_core_counts(streets, table);
    lemma_optional_counts(streets, table);
}

/// The same of the table and bytes that an encoding starts a section with, in
/// the terms of their validation: no fault, the level starts of the index
/// payload, and an end where the bytes end.
pub proof fn law_encoded_streets_validate(streets: StreetModel, stop_count: u32)
    requires
        array_bytes(stored_arrays(streets)).len() <= u64::MAX,
        parts_consistent(streets),
        links_in_range(
            streets.links,
            streets.lengths.len() as u64,
            stop_count,
            streets.vertex_count,
        ),
    ensures
        shape_fault(
            streets.vertex_count,
            streets.links,
            array_table(stored_arrays(streets)),
            0,
            array_bytes(stored_arrays(streets)).len(),
            stop_count,
        ) is None,
        level_starts((array_table(stored_arrays(streets))[11].count / 2) as nat) == level_starts(
            streets.index_payload.len() / 2,
        ),
        block_end(array_table(stored_arrays(streets)), 0) == array_bytes(
            stored_arrays(streets),
        ).len(),
{
    let table = array_table(stored_arrays(streets));
    assert(shifted(table, 0) == table) by {
        assert forall|i: int| 0 <= i < table.len() implies #[trigger] shifted(table, 0)[i]
            == table[i] by {}
    }
    assert(table[11].count == streets.index_payload.len()) by {
        lemma_table_laid_out(stored_arrays(streets), 0);
        lemma_payload_count(streets, table);
    }
    law_encoded_shape_is_accepted(streets, 0, stop_count);
}

proof fn lemma_payload_count(streets: StreetModel, table: Seq<ArrayDescriptor>)
    requires
        table.len() == stored_arrays(streets).len(),
        forall|i: int|
            0 <= i < table.len() ==> (#[trigger] table[i]).count == stored_arrays(
                streets,
            )[i].values.len(),
    ensures
        table[11].count == streets.index_payload.len(),
{
    let core = core_arrays(streets);
    assert(core.len() == 13);
    assert(stored_arrays(streets)[11] == core[11]);
}

/// The level above some nodes has one node for every sixteen, and for the rest.
pub proof fn law_levels_shrink_by_sixteen(start: nat, size: nat)
    requires
        start + 2 * size <= u32::MAX,
    ensures
        level_ends(start, size)[0] == start + size,
        size <= 1 ==> level_ends(start, size).len() == 1,
        size > 1 ==> ({
            let above = level_ends(start, size)[1] - level_ends(start, size)[0];
            &&& 16 * above >= size
            &&& 16 * (above - 1) < size
            &&& level_ends(start, size).skip(1) == level_ends(start + size, above as nat)
        }),
{
    if size > 1 {
        let above = (size + 15) / 16;
        let rest = level_ends(start + size, above);
        assert(rest[0] == low_word(start + size + above));
        assert(level_ends(start, size).skip(1) =~= rest);
    }
}

/// The levels of an index start with its leaves at zero.
pub proof fn law_leaves_come_first(leaves: nat)
    requires
        leaves <= 0x1000_0000,
    ensures
        level_starts(leaves)[0] == 0,
        level_starts(leaves)[1] == leaves,
        level_starts(leaves).len() >= 2,
        leaves <= 1 ==> level_starts(leaves).len() == 2,
{
}

/// The core of an accepted table is the thirteen arrays in their order and
/// kinds.
pub proof fn law_accepted_tables_start_with_the_core(descriptors: Seq<ArrayDescriptor>)
    requires
        core_in_order(descriptors),
    ensures
        descriptors[0].array == StreetArray::AdjacencyOffsets && descriptors[0].kind
            == ArrayKind::U32,
        descriptors[1].array == StreetArray::AdjTargets && descriptors[1].kind == ArrayKind::U32,
        descriptors[2].array == StreetArray::AdjMeters && descriptors[2].kind == ArrayKind::F64,
        descriptors[3].array == StreetArray::AdjEdges && descriptors[3].kind == ArrayKind::U32,
        descriptors[4].array == StreetArray::Endpoints && descriptors[4].kind == ArrayKind::U32,
        descriptors[5].array == StreetArray::Lengths && descriptors[5].kind == ArrayKind::F64,
        descriptors[6].array == StreetArray::CoordinateOffsets && descriptors[6].kind
            == ArrayKind::U32,
        descriptors[7].array == StreetArray::Lons && descriptors[7].kind == ArrayKind::I32,
        descriptors[8].array == StreetArray::Lats && descriptors[8].kind == ArrayKind::I32,
        descriptors[9].array == StreetArray::Cumulative && descriptors[9].kind == ArrayKind::F32,
        descriptors[10].array == StreetArray::IndexBoxes && descriptors[10].kind == ArrayKind::I32,
        descriptors[11].array == StreetArray::IndexPayload && descriptors[11].kind
            == ArrayKind::U32,
        descriptors[12].array == StreetArray::IndexLevelStarts && descriptors[12].kind
            == ArrayKind::U32,
{
}

/// An array is found at its first place in a table from a place on, and not at
/// all where it does not stand there.
pub proof fn law_arrays_are_found_first(
    descriptors: Seq<ArrayDescriptor>,
    array: StreetArray,
    from: int,
)
    requires
        0 <= from <= descriptors.len(),
    ensures
        match find_array(descriptors, array, from) {
            None => forall|i: int|
                from <= i < descriptors.len() ==> (#[trigger] descriptors[i]).array != array,
            Some(at) => from <= at < descriptors.len() && descriptors[at].array == array && forall|
                i: int,
            |
                from <= i < at ==> (#[trigger] descriptors[i]).array != array,
        },
    decreases descriptors.len() - from,
{
    if from < descriptors.len() && descriptors[from].array != array {
        law_arrays_are_found_first(descriptors, array, from + 1);
    }
}

/// The arrays of an accepted layout lie one behind the other, each on a
/// boundary of eight bytes but the first where the block starts, with no gap
/// wider than that takes, and within the section.
pub proof fn law_laid_out_arrays_do_not_overlap(
    descriptors: Seq<ArrayDescriptor>,
    start: nat,
    section_length: nat,
    i: int,
)
    requires
        laid_out(descriptors, start, section_length),
        0 <= i < descriptors.len(),
    ensures
        i == 0 ==> descriptors[i].offset == start,
        i > 0 ==> {
            let before = descriptors[i - 1].offset + descriptors[i - 1].count
                * descriptors[i - 1].kind.width();
            &&& before <= descriptors[i].offset < before + 8
            &&& descriptors[i].offset % 8 == 0
        },
        descriptors[i].offset + descriptors[i].count * descriptors[i].kind.width()
            <= section_length,
{
    assert(descriptors[i].offset == block_offset(descriptors, i, start));
    if i > 0 {
        lemma_aligned(extent_end(descriptors[i - 1]), ARRAY_ALIGNMENT as nat);
    }
}

/// A table of sound shape has sound order, layout, counts, groups and links;
/// and one that has all these has no fault.
pub proof fn law_sound_shapes(
    vertex_count: u32,
    links: Seq<StoredLink>,
    descriptors: Seq<ArrayDescriptor>,
    start: nat,
    section_length: nat,
    stop_count: u32,
)
    ensures
        shape_fault(vertex_count, links, descriptors, start, section_length, stop_count) is None
            <==> core_in_order(descriptors) && optional_in_order(descriptors) && laid_out(
            descriptors,
            start,
            section_length,
        ) && counts_consistent(vertex_count, descriptors) && (any_attribute(descriptors)
            ==> every_attribute(descriptors)) && (any_car(descriptors) ==> every_car(descriptors)
            && any_attribute(descriptors)) && optional_lengths(descriptors) && links_in_range(
            links,
            descriptors[5].count,
            stop_count,
            vertex_count,
        ),
{
}

/// The groups of an accepted table are whole: with any attribute there are all
/// six, and with any car array both, beside the attributes.
pub proof fn law_accepted_groups_are_whole(
    vertex_count: u32,
    links: Seq<StoredLink>,
    descriptors: Seq<ArrayDescriptor>,
    start: nat,
    section_length: nat,
    stop_count: u32,
)
    requires
        shape_fault(vertex_count, links, descriptors, start, section_length, stop_count) is None,
    ensures
        present(descriptors, StreetArray::AdjAccess) == present(
            descriptors,
            StreetArray::AdjFacility,
        ),
        present(descriptors, StreetArray::AdjAccess) == present(
            descriptors,
            StreetArray::EdgeHighway,
        ),
        present(descriptors, StreetArray::AdjAccess) == present(
            descriptors,
            StreetArray::EdgeSurface,
        ),
        present(descriptors, StreetArray::AdjAccess) == present(
            descriptors,
            StreetArray::EdgeSmoothness,
        ),
        present(descriptors, StreetArray::AdjAccess) == present(
            descriptors,
            StreetArray::EdgeFlags,
        ),
        present(descriptors, StreetArray::AdjCarSpeed) == present(
            descriptors,
            StreetArray::AdjJunction,
        ),
        present(descriptors, StreetArray::AdjCarSpeed) ==> present(
            descriptors,
            StreetArray::AdjAccess,
        ),
{
}

/// The counts of an accepted table fit a graph: an offset more than vertices,
/// two slots an edge with their targets, meters, edges and endpoints, an offset
/// more than edges, as many coordinates one way as the other, and a leaf for
/// every coordinate that does not end its edge.
pub proof fn law_accepted_counts_fit_a_graph(
    vertex_count: u32,
    descriptors: Seq<ArrayDescriptor>,
)
    requires
        counts_consistent(vertex_count, descriptors),
    ensures
        descriptors[0].count == vertex_count + 1,
        descriptors[1].count == 2 * descriptors[5].count,
        descriptors[2].count == 2 * descriptors[5].count,
        descriptors[3].count == 2 * descriptors[5].count,
        descriptors[4].count == 2 * descriptors[5].count,
        descriptors[6].count == descriptors[5].count + 1,
        descriptors[7].count == descriptors[8].count,
        descriptors[7].count == descriptors[9].count,
        descriptors[11].count == 2 * (descriptors[7].count - descriptors[5].count),
{
}

/// A link in range names an edge, a stop and vertices that exist, a share of
/// the edge and an amount of meters.
pub proof fn law_links_name_what_exists(
    link: StoredLink,
    edges: u64,
    stop_count: u32,
    vertex_count: u32,
)
    ensures
        link_in_range(link, edges, stop_count, vertex_count) <==> link.edge < edges && link.stop
            < stop_count && link.from < vertex_count && link.to < vertex_count && f64_is_fraction(
            link.fraction,
        ) && f64_is_cost(link.connector),
{
}

/// A block ends where the next starts, or less than a boundary before it, or
/// with the section where none follows.
pub proof fn law_blocks_meet(end: nat, next_block: Option<u64>, section_length: u64)
    ensures
        next_block is None ==> (boundary_holds(end, next_block, section_length) <==> end
            == section_length),
        next_block matches Some(next) ==> (boundary_holds(end, next_block, section_length) <==> end
            == next || end <= next < end + 8 && next % 8 == 0),
{
    lemma_aligned(end, ARRAY_ALIGNMENT as nat);
}

/// Moving a table moves each array by as much and changes nothing else.
pub proof fn law_moved_tables_keep_their_arrays(
    descriptors: Seq<ArrayDescriptor>,
    base: nat,
    i: int,
)
    requires
        0 <= i < descriptors.len(),
        descriptors[i].offset + base <= u64::MAX,
    ensures
        shifted(descriptors, base).len() == descriptors.len(),
        shifted(descriptors, base)[i].offset == descriptors[i].offset + base,
        shifted(descriptors, base)[i].array == descriptors[i].array,
        shifted(descriptors, base)[i].kind == descriptors[i].kind,
        shifted(descriptors, base)[i].count == descriptors[i].count,
{
}

/// A section is the walking block, then on the next boundary the multimodal
/// one; without a walking block the multimodal one starts it, and without a
/// multimodal block the walking one is all of it.
pub proof fn law_sections_hold_their_blocks(walking: StreetModel, multimodal: StreetModel)
    ensures
        ({
            let first = array_bytes(stored_arrays(walking));
            let second = array_bytes(stored_arrays(multimodal));
            let both = section_bytes(Some(walking), Some(multimodal));
            let start = both.len() - second.len();
            &&& section_bytes(None, None).len() == 0
            &&& section_bytes(Some(walking), None) == first
            &&& section_bytes(None, Some(multimodal)) == second
            &&& both.subrange(0, first.len() as int) == first
            &&& both.subrange(start, both.len() as int) == second
            &&& first.len() <= start < first.len() + 8
            &&& start % 8 == 0
        }),
{
    let first = array_bytes(stored_arrays(walking));
    let second = array_bytes(stored_arrays(multimodal));
    let both = section_bytes(Some(walking), Some(multimodal));
    lemma_aligned(first.len(), ARRAY_ALIGNMENT as nat);
    lemma_aligned(0, ARRAY_ALIGNMENT as nat);
    assert(padded(Seq::<u8>::empty()) =~= Seq::<u8>::empty());
    assert(section_bytes(None, Some(multimodal)) =~= second);
    let start = both.len() - second.len();
    assert(both.subrange(0, first.len() as int) =~= first);
    assert(both.subrange(start, both.len() as int) =~= second);
}

/// A record that describes a network has its vertex count and links, and a
/// table of its arrays, each in its place behind the block's start.
pub proof fn law_records_describe_their_network(
    meta: StreetsMeta,
    streets: StreetModel,
    base: nat,
    i: int,
)
    requires
        describes(meta, streets, base),
        0 <= i < stored_arrays(streets).len(),
        base + array_table(stored_arrays(streets))[i].offset <= u64::MAX,
    ensures
        meta.vertex_count == streets.vertex_count,
        meta.links@ == streets.links,
        meta.descriptors@.len() == stored_arrays(streets).len(),
        meta.descriptors@[i].array == stored_arrays(streets)[i].array,
        meta.descriptors@[i].kind == stored_arrays(streets)[i].kind,
        meta.descriptors@[i].offset == base + array_table(stored_arrays(streets))[i].offset,
{
}

/// The optional arrays of an accepted table come in their one order, none
/// twice, each of its own kind.
pub proof fn law_optional_arrays_keep_their_order(
    descriptors: Seq<ArrayDescriptor>,
    i: int,
    j: int,
)
    requires
        optional_in_order(descriptors),
        13 <= i < descriptors.len(),
        13 <= j < descriptors.len(),
    ensures
        descriptors[i].array == descriptors[j].array ==> i == j,
        descriptors[i].array == StreetArray::AdjAccess && descriptors[j].array
            == StreetArray::EdgeFlags ==> i < j,
        descriptors[i].array == StreetArray::EdgeFlags && descriptors[j].array
            == StreetArray::CoordinateElevations ==> i < j,
        descriptors[i].array == StreetArray::CoordinateElevations && descriptors[j].array
            == StreetArray::AdjCarSpeed ==> i < j,
        descriptors[i].array == StreetArray::AdjCarSpeed && descriptors[j].array
            == StreetArray::AdjJunction ==> i < j,
        descriptors[i].array == StreetArray::EdgeFlags ==> descriptors[i].kind == ArrayKind::U16,
        descriptors[i].array == StreetArray::CoordinateElevations || descriptors[i].array
            == StreetArray::AdjCarSpeed ==> descriptors[i].kind == ArrayKind::F32,
        descriptors[i].array == StreetArray::AdjAccess || descriptors[i].array
            == StreetArray::AdjFacility || descriptors[i].array == StreetArray::EdgeHighway
            || descriptors[i].array == StreetArray::EdgeSurface || descriptors[i].array
            == StreetArray::EdgeSmoothness || descriptors[i].array == StreetArray::AdjJunction
            ==> descriptors[i].kind == ArrayKind::U8,
{
}

/// The optional arrays of an accepted table are as long as what they describe:
/// access, facility, car speed and junction one a slot, the rest of the
/// attributes one an edge, elevations one a coordinate.
pub proof fn law_optional_arrays_fit_the_graph(
    descriptors: Seq<ArrayDescriptor>,
    array: StreetArray,
)
    requires
        optional_lengths(descriptors),
        find_array(descriptors, array, 13) is Some,
    ensures
        ({
            let count = descriptors[find_array(descriptors, array, 13)->0].count;
            &&& array == StreetArray::AdjAccess || array == StreetArray::AdjFacility || array
                == StreetArray::AdjCarSpeed || array == StreetArray::AdjJunction ==> count
                == descriptors[1].count
            &&& array == StreetArray::EdgeHighway || array == StreetArray::EdgeSurface || array
                == StreetArray::EdgeSmoothness || array == StreetArray::EdgeFlags ==> count
                == descriptors[5].count
            &&& array == StreetArray::CoordinateElevations ==> count == descriptors[7].count
        }),
{
}

} // verus!
