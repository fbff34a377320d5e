//! Loading artifacts: which checks run in which order on the owned and the
//! mapped path, and what each path reads of the STREETS section.
//!
//! The META payload is decoded between the checksum step and the street
//! steps; the street engine takes the decoded or mapped arrays over behind
//! them.

use crate::bytes::{f64_is_fraction, f64_is_positive, is_fraction, is_positive};
use crate::container::{
    aligned, corrupted, corrupted_text, header_outcome, law_accepted_sections_lie_in_the_file,
    lemma_aligned, parse_container, ContainerLayout,
};
use crate::crc::{checksum, crc32};
use crate::street_arrays::{
    array_bytes, array_start, array_table, padded, stored_arrays, ArrayDescriptor, CarAttributes,
    StoredLink, StreetAttributes, StreetArray, StreetModel, StreetNetworkParts, ARRAY_ALIGNMENT,
};
use crate::street_decode::{
    decode_optional_street_arrays, decode_streets, decoded, decoded_attributes, decoded_car,
    lemma_ordered_table_is_readable, optional_values, shape_accepted, value_fault,
};
use crate::street_laws::law_streets_round_trip;
use crate::street_shape::{
    block_end, block_offset, block_start_of, boundary_holds, check_block_boundary, core_in_order,
    extent_end, laid_out, law_encoded_shape_is_accepted, level_starts, links_in_range,
    parts_consistent, section_bytes, shape_fault, shifted, validate_street_shape, walking_bytes,
    ElevationMeta, StreetsMeta,
};
use crate::text::{joined, joined_text, outcome, same_text, ValueError};
use vstd::prelude::*;
use vstd::slice::slice_subrange;

verus! {

/// How a load should back the street arrays.
#[derive(Debug, Clone, Copy, PartialEq, Eq, Structural)]
pub enum MmapMode {
    Off,
    Auto,
    Require,
}

/// The mode that a request's `mmap` option names.
pub open spec fn mmap_mode(name: Seq<char>) -> Option<MmapMode> {
    if name == "off"@ {
        Some(MmapMode::Off)
    } else if name == "auto"@ {
        Some(MmapMode::Auto)
    } else if name == "require"@ {
        Some(MmapMode::Require)
    } else {
        None
    }
}

pub fn parse_mmap_mode(name: &str) -> (mode: Result<MmapMode, ValueError>)
    ensures
        match mmap_mode(name@) {
            Some(known) => mode == Ok::<MmapMode, ValueError>(known),
            None => mode matches Err(error) && error.message@ == joined_text(
                seq!["mmap must be 'off', 'auto', or 'require', not '"@, name@, "'"@],
            ),
        },
{
    if same_text(name, "off") {
        Ok(MmapMode::Off)
    } else if same_text(name, "auto") {
        Ok(MmapMode::Auto)
    } else if same_text(name, "require") {
        Ok(MmapMode::Require)
    } else {
        let pieces: [&str; 3] = ["mmap must be 'off', 'auto', or 'require', not '", name, "'"];
        let text = joined(&pieces);
        assert(pieces@.map_values(|piece: &str| piece@) =~= seq![
            "mmap must be 'off', 'auto', or 'require', not '"@,
            name@,
            "'"@,
        ]);
        Err(ValueError::new(text))
    }
}

/// Why this process cannot map artifacts, if it cannot: the stored values
/// are little-endian, and a non-empty setting other than `0` switches
/// mapping off.
pub fn mapping_unavailable(big_endian: bool, disable_setting: Option<&str>) -> (reason: Option<
    &'static str,
>)
    ensures
        match reason {
            Some(text) => text@ == (if big_endian {
                "mapped street arrays need a little-endian host"@
            } else {
                "disabled by CAFEIN_DISABLE_MMAP"@
            }),
            None => true,
        },
        reason is Some == (big_endian || (disable_setting matches Some(setting) && setting@.len()
            > 0 && setting@ != "0"@)),
{
    if big_endian {
        return Some("mapped street arrays need a little-endian host");
    }
    match disable_setting {
        Some(setting) => {
            if !setting.is_empty() && !same_text(setting, "0") {
                Some("disabled by CAFEIN_DISABLE_MMAP")
            } else {
                None
            }
        },
        None => None,
    }
}

/// What follows when mapping turned out to be unavailable: an owned load,
/// unless the request forbids it.
pub fn after_failed_mapping(path: &str, mode: MmapMode, reason: &str) -> (fallback: Result<
    (),
    ValueError,
>)
    ensures
        fallback is Ok == (mode != MmapMode::Require),
        fallback matches Err(error) ==> error.message@ == joined_text(
            seq![
                "'"@,
                path@,
                "' cannot be memory-mapped ("@,
                reason@,
                ") and mmap='require' forbids the owned fallback"@,
            ],
        ),
{
    if mode == MmapMode::Require {
        let pieces: [&str; 5] = [
            "'",
            path,
            "' cannot be memory-mapped (",
            reason,
            ") and mmap='require' forbids the owned fallback",
        ];
        let text = joined(&pieces);
        assert(pieces@.map_values(|piece: &str| piece@) =~= seq![
            "'"@,
            path@,
            "' cannot be memory-mapped ("@,
            reason@,
            ") and mmap='require' forbids the owned fallback"@,
        ]);
        Err(ValueError::new(text))
    } else {
        Ok(())
    }
}

/// The bytes of a section of a parsed file.
pub open spec fn section_at(bytes: Seq<u8>, offset: u64, length: u64) -> Seq<u8> {
    bytes.subrange(offset as int, offset + length)
}

/// What a container comes to once its checksums are taken: META always,
/// STREETS where asked for.
pub open spec fn opened(
    path: Seq<char>,
    bytes: Seq<u8>,
    magic: Seq<u8>,
    format: u32,
    verify_streets: bool,
) -> Result<ContainerLayout, Seq<char>> {
    match header_outcome(path, bytes, bytes.len(), magic, format) {
        Err(text) => Err(text),
        Ok(layout) => if checksum(section_at(bytes, layout.meta_offset, layout.meta_length))
            != layout.meta_crc {
            Err(corrupted_text(path, "checksum mismatch"@))
        } else if verify_streets && checksum(
            section_at(bytes, layout.streets_offset, layout.streets_length),
        ) != layout.streets_crc {
            Err(corrupted_text(path, "checksum mismatch"@))
        } else {
            Ok(layout)
        },
    }
}

/// Parses a container and takes its checksums, before anything of it is
/// decoded.
pub fn open_container(
    path: &str,
    bytes: &[u8],
    magic: &[u8; 8],
    format: u32,
    verify_streets: bool,
) -> (layout: Result<ContainerLayout, ValueError>)
    ensures
        outcome(layout) == opened(path@, bytes@, magic@, format, verify_streets),
        layout matches Ok(layout) ==> layout.meta_offset + layout.meta_length
            <= layout.streets_offset && layout.streets_offset + layout.streets_length
            <= bytes@.len(),
{
    let layout = match parse_container(path, bytes, magic, format) {
        Ok(layout) => layout,
        Err(error) => {
            return Err(error);
        },
    };
    let total: usize = bytes.len();
    proof {
        law_accepted_sections_lie_in_the_file(path@, bytes@, total as nat, magic@, format);
    }
    let meta = slice_subrange(
        bytes,
        layout.meta_offset as usize,
        (layout.meta_offset + layout.meta_length) as usize,
    );
    if crc32(meta) != layout.meta_crc {
        return Err(corrupted(path, "checksum mismatch"));
    }
    if verify_streets {
        let section = slice_subrange(
            bytes,
            layout.streets_offset as usize,
            (layout.streets_offset + layout.streets_length) as usize,
        );
        if crc32(section) != layout.streets_crc {
            return Err(corrupted(path, "checksum mismatch"));
        }
    }
    Ok(layout)
}

/// Whether an owned load checks the STREETS checksum: yes unless declined,
/// for the bytes are read anyway.
pub fn owned_verifies(verify: Option<bool>) -> (verifies: bool)
    ensures
        verifies == (verify != Some(false)),
{
    match verify {
        Some(asked) => asked,
        None => true,
    }
}

/// Whether a mapped load checks it: only when asked to, since that pages the
/// whole section in.
pub fn mapped_verifies(verify: Option<bool>) -> (verifies: bool)
    ensures
        verifies == (verify == Some(true)),
{
    match verify {
        Some(asked) => asked,
        None => false,
    }
}

/// An artifact whose META describes streets must have a STREETS section.
pub fn check_street_section(path: &str, described: bool, streets_length: u64) -> (checked: Result<
    (),
    ValueError,
>)
    ensures
        checked is Ok == (!described || streets_length > 0),
        checked matches Err(error) ==> error.message@ == corrupted_text(
            path@,
            "missing street section"@,
        ),
{
    if described && streets_length == 0 {
        Err(corrupted(path, "missing street section"))
    } else {
        Ok(())
    }
}

/// What is wrong with a street block by its metadata: its shape, then where
/// it ends.
pub open spec fn block_fault(
    vertex_count: u32,
    links: Seq<StoredLink>,
    descriptors: Seq<ArrayDescriptor>,
    start: nat,
    section_length: u64,
    stop_count: u32,
    next_block: Option<u64>,
) -> Option<Seq<char>> {
    match shape_fault(
        vertex_count,
        links,
        descriptors,
        start,
        section_length as nat,
        stop_count,
    ) {
        Some(what) => Some(what),
        None => if boundary_holds(block_end(descriptors, start), next_block, section_length) {
            None
        } else {
            Some("street array bounds"@)
        },
    }
}

/// What is wrong with a street block once its arrays are read.
pub open spec fn decode_fault(
    vertex_count: u32,
    links: Seq<StoredLink>,
    descriptors: Seq<ArrayDescriptor>,
    start: nat,
    section: Seq<u8>,
    stop_count: u32,
    next_block: Option<u64>,
) -> Option<Seq<char>> {
    match block_fault(
        vertex_count,
        links,
        descriptors,
        start,
        section.len() as u64,
        stop_count,
        next_block,
    ) {
        Some(what) => Some(what),
        None => value_fault(
            decoded(vertex_count, links, descriptors, section),
            level_starts((descriptors[11].count / 2) as nat),
        ),
    }
}

fn check_block(
    path: &str,
    meta: &StreetsMeta,
    start: u64,
    section_length: u64,
    stop_count: u32,
    next_block: Option<u64>,
) -> (levels: Result<Vec<u32>, ValueError>)
    requires
        section_length <= usize::MAX - 7,
    ensures
        match block_fault(
            meta.vertex_count,
            meta.links@,
            meta.descriptors@,
            start as nat,
            section_length,
            stop_count,
            next_block,
        ) {
            Some(what) => levels matches Err(error) && error.message@ == corrupted_text(
                path@,
                what,
            ),
            None => levels matches Ok(levels) && levels@ == level_starts(
                (meta.descriptors@[11].count / 2) as nat,
            ),
        },
{
    match validate_street_shape(path, meta, start, section_length, stop_count) {
        Ok((levels, end)) => {
            proof {
                let last = meta.descriptors@.len() - 1;
                assert(extent_end(meta.descriptors@[last]) <= section_length);
            }
            match check_block_boundary(path, end, next_block, section_length) {
                Ok(_) => Ok(levels),
                Err(error) => Err(error),
            }
        },
        Err(error) => Err(error),
    }
}

/// Decodes one street block of an owned load: shape, boundary, arrays,
/// values. The walking block starts at 0 and ends where the multimodal block
/// (`next_block`) starts; a block with nothing behind it ends the section.
pub fn load_block_owned(
    path: &str,
    meta: StreetsMeta,
    start: u64,
    section: &[u8],
    stop_count: u32,
    next_block: Option<u64>,
) -> (parts: Result<StreetNetworkParts, ValueError>)
    requires
        section@.len() <= usize::MAX - 7,
    ensures
        match decode_fault(
            meta.vertex_count,
            meta.links@,
            meta.descriptors@,
            start as nat,
            section@,
            stop_count,
            next_block,
        ) {
            Some(what) => parts matches Err(error) && error.message@ == corrupted_text(path@, what),
            None => parts matches Ok(parts) && parts@ == decoded(
                meta.vertex_count,
                meta.links@,
                meta.descriptors@,
                section@,
            ),
        },
{
    match check_block(path, &meta, start, section.len() as u64, stop_count, next_block) {
        Ok(levels) => {
            proof {
                assert(shape_fault(
                    meta.vertex_count,
                    meta.links@,
                    meta.descriptors@,
                    start as nat,
                    section@.len(),
                    stop_count,
                ) is None);
                assert(shape_accepted(
                    meta.vertex_count,
                    meta.links@,
                    meta.descriptors@,
                    section@.len(),
                ));
            }
            decode_streets(path, meta, section, levels)
        },
        Err(error) => Err(error),
    }
}

/// A street block as a mapped load adopts it: where each array lies in the
/// file, and the optional arrays decoded owned.
pub struct MappedBlock {
    /// Absolute byte position and element count of each array.
    pub ranges: Vec<(u64, u64)>,
    pub attributes: Option<StreetAttributes>,
    pub car: Option<CarAttributes>,
    pub elevations: Option<Vec<u32>>,
    /// STREETS bytes that adopting this block reads.
    pub bytes_read: u64,
}

/// The bytes of the optional arrays of a table, from descriptor `from` on.
pub open spec fn optional_bytes(descriptors: Seq<ArrayDescriptor>, from: int) -> nat
    decreases descriptors.len() - from,
{
    if from >= descriptors.len() {
        0
    } else {
        descriptors[from].count as nat * descriptors[from].kind.width() + optional_bytes(
            descriptors,
            from + 1,
        )
    }
}

pub open spec fn array_ranges(descriptors: Seq<ArrayDescriptor>, streets_offset: u64) -> Seq<
    (u64, u64),
> {
    descriptors.map_values(
        |descriptor: ArrayDescriptor|
            ((streets_offset + descriptor.offset) as u64, descriptor.count),
    )
}

/// The arrays of a block lie behind each other, so those from `from` on take
/// no more than the bytes up to the last one's end.
proof fn lemma_optional_bytes(descriptors: Seq<ArrayDescriptor>, start: nat, length: nat, from: int)
    requires
        0 < from <= descriptors.len(),
        laid_out(descriptors, start, length),
    ensures
        optional_bytes(descriptors, from) + extent_end(descriptors[from - 1]) <= length,
    decreases descriptors.len() - from,
{
    if from < descriptors.len() {
        lemma_optional_bytes(descriptors, start, length, from + 1);
        lemma_aligned(extent_end(descriptors[from - 1]), ARRAY_ALIGNMENT as nat);
        assert(descriptors[from].offset == block_offset(descriptors, from, start));
    }
}

fn count_optional_bytes(
    descriptors: &[ArrayDescriptor],
    Ghost(start): Ghost<nat>,
    section_length: u64,
) -> (bytes: u64)
    requires
        descriptors@.len() >= 13,
        laid_out(descriptors@, start, section_length as nat),
    ensures
        bytes == optional_bytes(descriptors@, 13),
        bytes <= section_length,
{
    let mut bytes: u64 = 0;
    let mut index: usize = descriptors.len();
    while index > 13
        invariant
            13 <= index <= descriptors@.len(),
            laid_out(descriptors@, start, section_length as nat),
            bytes == optional_bytes(descriptors@, index as int),
        decreases index,
    {
        index -= 1;
        proof {
            lemma_optional_bytes(descriptors@, start, section_length as nat, index as int);
            assert(extent_end(descriptors@[index as int]) <= section_length);
        }
        let descriptor: ArrayDescriptor = descriptors[index];
        bytes = descriptor.count * descriptor.kind.size() + bytes;
    }
    proof {
        lemma_optional_bytes(descriptors@, start, section_length as nat, 13);
    }
    bytes
}

/// Adopts one street block of a mapped load. The core arrays stay where they
/// are; the optional arrays are decoded owned, paging in only their bytes —
/// which count as read unless a checksum pass has read the section already.
pub fn load_block_mapped(
    path: &str,
    meta: &StreetsMeta,
    start: u64,
    streets_offset: u64,
    section: &[u8],
    stop_count: u32,
    next_block: Option<u64>,
    verified: bool,
) -> (block: Result<MappedBlock, ValueError>)
    requires
        section@.len() <= usize::MAX - 7,
        streets_offset + section@.len() <= u64::MAX,
    ensures
        match block_fault(
            meta.vertex_count,
            meta.links@,
            meta.descriptors@,
            start as nat,
            section@.len() as u64,
            stop_count,
            next_block,
        ) {
            Some(what) => block matches Err(error) && error.message@ == corrupted_text(path@, what),
            None => block matches Ok(block) && {
                &&& block.ranges@ == array_ranges(meta.descriptors@, streets_offset)
                &&& block.bytes_read == if verified {
                    0
                } else {
                    optional_bytes(meta.descriptors@, 13)
                }
                &&& match block.attributes {
                    Some(attributes) => decoded_attributes(section@, meta.descriptors@) == Some(
                        attributes@,
                    ),
                    None => decoded_attributes(section@, meta.descriptors@) is None,
                }
                &&& match block.car {
                    Some(car) => decoded_car(section@, meta.descriptors@) == Some(car@),
                    None => decoded_car(section@, meta.descriptors@) is None,
                }
                &&& match block.elevations {
                    Some(elevations) => optional_values::<u32>(
                        section@,
                        meta.descriptors@,
                        StreetArray::CoordinateElevations,
                    ) == Some(elevations@),
                    None => optional_values::<u32>(
                        section@,
                        meta.descriptors@,
                        StreetArray::CoordinateElevations,
                    ) is None,
                }
            },
        },
{
    let length: u64 = section.len() as u64;
    match check_block(path, meta, start, length, stop_count, next_block) {
        Ok(_) => {},
        Err(error) => {
            return Err(error);
        },
    }
    let descriptors = meta.descriptors.as_slice();
    assert(laid_out(descriptors@, start as nat, length as nat));
    proof {
        lemma_ordered_table_is_readable(descriptors@, section@.len());
    }
    let mut ranges: Vec<(u64, u64)> = Vec::new();
    let mut index: usize = 0;
    while index < descriptors.len()
        invariant
            index <= descriptors@.len(),
            length == section@.len(),
            streets_offset + length <= u64::MAX,
            laid_out(descriptors@, start as nat, length as nat),
            ranges@ == array_ranges(descriptors@, streets_offset).subrange(0, index as int),
        decreases descriptors.len() - index,
    {
        let descriptor: ArrayDescriptor = descriptors[index];
        assert(extent_end(descriptors@[index as int]) <= length);
        ranges.push((streets_offset + descriptor.offset, descriptor.count));
        index += 1;
        assert(ranges@ =~= array_ranges(descriptors@, streets_offset).subrange(0, index as int));
    }
    assert(ranges@ =~= array_ranges(descriptors@, streets_offset));
    let (attributes, car, elevations) = decode_optional_street_arrays(section, descriptors);
    let bytes_read: u64 = if verified {
        0
    } else {
        count_optional_bytes(descriptors, Ghost(start as nat), length)
    };
    Ok(MappedBlock { ranges, attributes, car, elevations, bytes_read })
}

/// The bytes of the STREETS section that a mapped load read: all of it where
/// its checksum was verified, else the optional arrays of its walking and
/// multimodal blocks — none for a walk-only artifact.
pub fn streets_bytes_read(
    verified: bool,
    section_length: u64,
    walking: u64,
    multimodal: u64,
) -> (read: u64)
    requires
        walking + multimodal <= u64::MAX,
    ensures
        read == if verified {
            section_length
        } else {
            (walking + multimodal) as u64
        },
{
    if verified {
        section_length
    } else {
        walking + multimodal
    }
}

/// A lazy mapped load of walk-only streets reads nothing of the section, and
/// any mapped block reads no more than the section holds.
pub proof fn law_lazy_mapping_reads_optional_arrays_only(
    descriptors: Seq<ArrayDescriptor>,
    start: nat,
    section_length: nat,
)
    requires
        core_in_order(descriptors),
        laid_out(descriptors, start, section_length),
    ensures
        descriptors.len() == 13 ==> optional_bytes(descriptors, 13) == 0,
        optional_bytes(descriptors, 13) <= section_length,
{
    lemma_optional_bytes(descriptors, start, section_length, 13);
}

/// What is wrong with elevation metadata for a graph of that many edges.
pub open spec fn elevation_fault(meta: ElevationMeta, edge_count: u32) -> Option<Seq<char>> {
    if !f64_is_positive(meta.sampling_interval) {
        Some("elevation sampling_interval must be positive and finite"@)
    } else if !f64_is_fraction(meta.coverage) {
        Some("elevation coverage must be a share within 0..=1"@)
    } else if meta.inferred_edges > edge_count {
        Some("elevation inferred_edges exceeds the edge count"@)
    } else {
        None
    }
}

/// The metadata's declared invariants: a positive finite sampling interval,
/// a coverage share, and an inferred count no larger than the edge set.
pub fn check_elevation_meta(meta: &ElevationMeta, edge_count: u32) -> (checked: Result<
    (),
    ValueError,
>)
    ensures
        match elevation_fault(*meta, edge_count) {
            Some(text) => checked matches Err(error) && error.message@ == text,
            None => checked is Ok,
        },
{
    if !is_positive(meta.sampling_interval) {
        return Err(
            ValueError::new("elevation sampling_interval must be positive and finite".to_owned()),
        );
    }
    if !is_fraction(meta.coverage) {
        return Err(ValueError::new("elevation coverage must be a share within 0..=1".to_owned()));
    }
    if meta.inferred_edges > edge_count {
        return Err(ValueError::new("elevation inferred_edges exceeds the edge count".to_owned()));
    }
    Ok(())
}

/// Whether a graph and its metadata agree on elevations: present together or
/// not at all, and within their bounds.
pub open spec fn elevations_agree(
    has_elevations: bool,
    meta: Option<ElevationMeta>,
    edge_count: u32,
) -> bool {
    match meta {
        Some(meta) => has_elevations && elevation_fault(meta, edge_count) is None,
        None => !has_elevations,
    }
}

/// The elevation check behind both load paths; `what` names the finding.
pub fn check_loaded_elevation(
    path: &str,
    has_elevations: bool,
    meta: &Option<ElevationMeta>,
    edge_count: u32,
    what: &str,
) -> (checked: Result<(), ValueError>)
    ensures
        checked is Ok == elevations_agree(has_elevations, *meta, edge_count),
        checked matches Err(error) ==> error.message@ == corrupted_text(path@, what@),
{
    match meta {
        Some(meta) => {
            if !has_elevations || check_elevation_meta(meta, edge_count).is_err() {
                Err(corrupted(path, what))
            } else {
                Ok(())
            }
        },
        None => if has_elevations {
            Err(corrupted(path, what))
        } else {
            Ok(())
        },
    }
}

/// Elevations and their metadata are passed together or not at all.
pub fn check_elevation_arguments(has_elevations: bool, has_metadata: bool) -> (checked: Result<
    (),
    ValueError,
>)
    ensures
        checked is Ok == (has_elevations == has_metadata),
        checked matches Err(error) ==> error.message@
            == "coordinate_elevations and elevation_metadata go together: pass both or neither"@,
{
    if has_elevations != has_metadata {
        Err(
            ValueError::new(
                "coordinate_elevations and elevation_metadata go together: pass both or neither".to_owned(),
            ),
        )
    } else {
        Ok(())
    }
}

/// What the loader asks of a persisted walking hierarchy, and of the street
/// graph it rides with.
#[derive(Debug, Clone, Copy, PartialEq, Eq, Structural)]
pub struct HierarchyFacts {
    pub vertex_count: u32,
    pub consistent: bool,
    pub fingerprint: Option<u64>,
}

#[derive(Debug, Clone, Copy, PartialEq, Eq, Structural)]
pub struct GraphFacts {
    pub vertex_count: u32,
    pub fingerprint: Option<u64>,
}

/// A hierarchy accompanies a street network, covers its vertices, is
/// consistent in itself, and — where the graph's rows have been read —
/// carries that graph's fingerprint.
pub open spec fn hierarchy_fits(
    hierarchy: Option<HierarchyFacts>,
    streets: Option<GraphFacts>,
    rows_read: bool,
) -> bool {
    match (hierarchy, streets) {
        (None, _) => true,
        (Some(_), None) => false,
        (Some(hierarchy), Some(streets)) => {
            &&& hierarchy.vertex_count == streets.vertex_count
            &&& hierarchy.consistent
            &&& rows_read ==> hierarchy.fingerprint == streets.fingerprint
        },
    }
}

/// Validates a persisted walking hierarchy before its buckets are rebuilt. A
/// lazy mapped load skips only the fingerprint, since recomputing it would
/// page in the section the lazy path leaves unread.
pub fn validate_walking_hierarchy(
    path: &str,
    hierarchy: Option<HierarchyFacts>,
    streets: Option<GraphFacts>,
    rows_read: bool,
) -> (checked: Result<(), ValueError>)
    ensures
        checked is Ok == hierarchy_fits(hierarchy, streets, rows_read),
        checked matches Err(error) ==> error.message@ == corrupted_text(
            path@,
            "walking hierarchy shape"@,
        ),
{
    let fits: bool = match hierarchy {
        None => true,
        Some(hierarchy) => match streets {
            None => false,
            Some(streets) => hierarchy.vertex_count == streets.vertex_count
                && hierarchy.consistent && (!rows_read || same_fingerprint(
                hierarchy.fingerprint,
                streets.fingerprint,
            )),
        },
    };
    if fits {
        Ok(())
    } else {
        Err(corrupted(path, "walking hierarchy shape"))
    }
}

fn same_fingerprint(left: Option<u64>, right: Option<u64>) -> (same: bool)
    ensures
        same == (left == right),
{
    match (left, right) {
        (Some(left), Some(right)) => left == right,
        (None, None) => true,
        _ => false,
    }
}

/// A network that every load accepts: its arrays fit each other, its links
/// are in range, and its values hold together.
pub open spec fn loadable(streets: StreetModel, stop_count: u32) -> bool {
    &&& parts_consistent(streets)
    &&& links_in_range(
        streets.links,
        streets.lengths.len() as u64,
        stop_count,
        streets.vertex_count,
    )
    &&& value_fault(streets, level_starts(streets.index_payload.len() / 2)) is None
}

proof fn lemma_block_loads(
    streets: StreetModel,
    stop_count: u32,
    head: Seq<u8>,
    tail: Seq<u8>,
    next_block: Option<u64>,
)
    requires
        loadable(streets, stop_count),
        head.len() % 8 == 0,
        head.len() + array_bytes(stored_arrays(streets)).len() + tail.len() <= u64::MAX,
        next_block is None ==> tail.len() == 0,
        next_block matches Some(next) ==> next == aligned(
            head.len() + array_bytes(stored_arrays(streets)).len(),
            8,
        ),
    ensures
        ({
            let table = shifted(array_table(stored_arrays(streets)), head.len());
            let section = head + array_bytes(stored_arrays(streets)) + tail;
            &&& decode_fault(
                streets.vertex_count,
                streets.links,
                table,
                head.len(),
                section,
                stop_count,
                next_block,
            ) is None
            &&& decoded(streets.vertex_count, streets.links, table, section) == streets
        }),
{
    let arrays = stored_arrays(streets);
    let table = shifted(array_table(arrays), head.len());
    let section = head + array_bytes(arrays) + tail;
    let end = head.len() + array_bytes(arrays).len();
    law_encoded_shape_is_accepted(streets, head.len(), stop_count);
    law_streets_round_trip(streets, head, tail);
    assert(laid_out(table, head.len(), end));
    assert(laid_out(table, head.len(), section.len()));
    assert(shape_fault(
        streets.vertex_count,
        streets.links,
        table,
        head.len(),
        section.len(),
        stop_count,
    ) is None);
    assert(table[11].count == streets.index_payload.len()) by {
        assert(decoded(streets.vertex_count, streets.links, table, section).index_payload.len()
            == table[11].count);
    }
}

proof fn lemma_walking_block_loads(
    walking: StreetModel,
    multimodal: StreetModel,
    stop_count: u32,
)
    requires
        loadable(walking, stop_count),
        section_bytes(Some(walking), Some(multimodal)).len() <= u64::MAX,
    ensures
        ({
            let section = section_bytes(Some(walking), Some(multimodal));
            let base = padded(walking_bytes(Some(walking))).len();
            let table = shifted(array_table(stored_arrays(walking)), 0);
            &&& decode_fault(
                walking.vertex_count,
                walking.links,
                table,
                0,
                section,
                stop_count,
                Some(base as u64),
            ) is None
            &&& decoded(walking.vertex_count, walking.links, table, section) == walking
        }),
{
    let section = section_bytes(Some(walking), Some(multimodal));
    let first = array_bytes(stored_arrays(walking));
    let base = padded(first).len();
    lemma_aligned(first.len(), 8);
    let none = Seq::<u8>::empty();
    let tail = section.subrange(first.len() as int, section.len() as int);
    assert(section =~= none + first + tail);
    lemma_block_loads(walking, stop_count, none, tail, Some(base as u64));
}

proof fn lemma_multimodal_block_loads(walking: StreetModel, multimodal: StreetModel)
    requires
        loadable(multimodal, 0),
        section_bytes(Some(walking), Some(multimodal)).len() <= u64::MAX,
    ensures
        ({
            let section = section_bytes(Some(walking), Some(multimodal));
            let base = padded(walking_bytes(Some(walking))).len();
            let table = shifted(array_table(stored_arrays(multimodal)), base);
            &&& block_start_of(table) == base
            &&& decode_fault(
                multimodal.vertex_count,
                multimodal.links,
                table,
                base,
                section,
                0,
                None,
            ) is None
            &&& decoded(multimodal.vertex_count, multimodal.links, table, section) == multimodal
        }),
{
    let section = section_bytes(Some(walking), Some(multimodal));
    let head = padded(array_bytes(stored_arrays(walking)));
    let none = Seq::<u8>::empty();
    assert(head.len() % 8 == 0) by {
        lemma_aligned(array_bytes(stored_arrays(walking)).len(), 8);
    }
    assert(section == head + array_bytes(stored_arrays(multimodal)) + none) by {
        assert(section =~= head + array_bytes(stored_arrays(multimodal)) + none);
    }
    lemma_block_loads(multimodal, 0, head, none, None);
    lemma_block_start(multimodal, head.len());
}

/// A block's table names the position it was stored from.
proof fn lemma_block_start(streets: StreetModel, base: nat)
    requires
        base <= u64::MAX,
    ensures
        block_start_of(shifted(array_table(stored_arrays(streets)), base)) == base,
{
    let arrays = stored_arrays(streets);
    assert(arrays.len() >= 13);
    assert(arrays.subrange(0, 0) =~= Seq::empty());
    assert(array_start(arrays.subrange(0, 0)) == 0);
}

/// What a save writes, a load gives back: with the STREETS section of a
/// loadable walking network and a loadable multimodal network (which links
/// no stops), both blocks pass every check of an owned load and decode to
/// exactly the networks that were saved.
pub proof fn law_saved_networks_load(
    walking: StreetModel,
    multimodal: StreetModel,
    stop_count: u32,
)
    requires
        loadable(walking, stop_count),
        loadable(multimodal, 0),
        section_bytes(Some(walking), Some(multimodal)).len() <= u64::MAX,
    ensures
        ({
            let section = section_bytes(Some(walking), Some(multimodal));
            let base = padded(walking_bytes(Some(walking))).len();
            let walking_table = shifted(array_table(stored_arrays(walking)), 0);
            let multimodal_table = shifted(array_table(stored_arrays(multimodal)), base);
            &&& block_start_of(multimodal_table) == base
            &&& decode_fault(
                walking.vertex_count,
                walking.links,
                walking_table,
                0,
                section,
                stop_count,
                Some(base as u64),
            ) is None
            &&& decoded(walking.vertex_count, walking.links, walking_table, section) == walking
            &&& decode_fault(
                multimodal.vertex_count,
                multimodal.links,
                multimodal_table,
                base,
                section,
                0,
                None,
            ) is None
            &&& decoded(multimodal.vertex_count, multimodal.links, multimodal_table, section)
                == multimodal
        }),
{
    lemma_walking_block_loads(walking, multimodal, stop_count);
    lemma_multimodal_block_loads(walking, multimodal);
}

/// The same of a street artifact, and of a network saved without a
/// multimodal graph: a single block fills the section.
pub proof fn law_saved_streets_load(streets: StreetModel, stop_count: u32)
    requires
        loadable(streets, stop_count),
        section_bytes(Some(streets), None).len() <= u64::MAX,
    ensures
        ({
            let section = section_bytes(Some(streets), None);
            let table = shifted(array_table(stored_arrays(streets)), 0);
            &&& decode_fault(
                streets.vertex_count,
                streets.links,
                table,
                0,
                section,
                stop_count,
                None,
            ) is None
            &&& decoded(streets.vertex_count, streets.links, table, section) == streets
        }),
{
    let none = Seq::<u8>::empty();
    let section = section_bytes(Some(streets), None);
    assert(section =~= none + array_bytes(stored_arrays(streets)) + none);
    lemma_block_loads(streets, stop_count, none, none, None);
}

/// A mapping mode is known by its own name alone.
pub proof fn law_mapping_modes_are_named(name: Seq<char>)
    ensures
        mmap_mode(name) == Some(MmapMode::Off) <==> name == "off"@,
        mmap_mode(name) == Some(MmapMode::Auto) <==> name == "auto"@,
        mmap_mode(name) == Some(MmapMode::Require) <==> name == "require"@,
{
    reveal_strlit("off");
    reveal_strlit("auto");
    reveal_strlit("require");
    assert("off"@.len() == 3);
    assert("auto"@.len() == 4);
    assert("require"@.len() == 7);
}

/// A container opens exactly where its header is accepted and META has the
/// checksum its directory records, and the streets too where that is asked;
/// it opens as its header says.
pub proof fn law_opened_containers_have_their_checksums(
    path: Seq<char>,
    bytes: Seq<u8>,
    magic: Seq<u8>,
    format: u32,
    verify_streets: bool,
)
    ensures
        ({
            let header = header_outcome(path, bytes, bytes.len(), magic, format);
            let layout = header->Ok_0;
            let meta = bytes.subrange(
                layout.meta_offset as int,
                layout.meta_offset + layout.meta_length,
            );
            let streets = bytes.subrange(
                layout.streets_offset as int,
                layout.streets_offset + layout.streets_length,
            );
            &&& opened(path, bytes, magic, format, verify_streets) is Ok <==> header is Ok
                && checksum(meta) == layout.meta_crc && (verify_streets ==> checksum(streets)
                == layout.streets_crc)
            &&& opened(path, bytes, magic, format, verify_streets) is Ok ==> opened(
                path,
                bytes,
                magic,
                format,
                verify_streets,
            ) == header
            &&& header is Err ==> opened(path, bytes, magic, format, verify_streets) == header
        }),
{
}

/// A block is sound by its metadata exactly where its shape is and it ends
/// where the next block starts, or with the section.
pub proof fn law_blocks_end_where_the_next_starts(
    vertex_count: u32,
    links: Seq<StoredLink>,
    descriptors: Seq<ArrayDescriptor>,
    start: nat,
    section_length: u64,
    stop_count: u32,
    next_block: Option<u64>,
)
    ensures
        ({
            let end = block_end(descriptors, start);
            let shape = shape_fault(
                vertex_count,
                links,
                descriptors,
                start,
                section_length as nat,
                stop_count,
            );
            let fault = block_fault(
                vertex_count,
                links,
                descriptors,
                start,
                section_length,
                stop_count,
                next_block,
            );
            &&& fault is None ==> shape is None && (next_block is None ==> end == section_length)
                && (next_block matches Some(next) ==> end <= next < end + 8)
            &&& shape is Some ==> fault == shape
            &&& shape is None && (next_block is None && end == section_length || next_block
                is Some && next_block->0 == end) ==> fault is None
        }),
{
    lemma_aligned(block_end(descriptors, start), ARRAY_ALIGNMENT as nat);
}

/// A mapped block's ranges are its arrays', in table order, each moved by
/// where the section starts in the file.
pub proof fn law_mapped_ranges_are_the_arrays(
    descriptors: Seq<ArrayDescriptor>,
    streets_offset: u64,
    i: int,
)
    requires
        0 <= i < descriptors.len(),
        streets_offset + descriptors[i].offset <= u64::MAX,
    ensures
        array_ranges(descriptors, streets_offset).len() == descriptors.len(),
        array_ranges(descriptors, streets_offset)[i].0 == streets_offset + descriptors[i].offset,
        array_ranges(descriptors, streets_offset)[i].1 == descriptors[i].count,
{
}

/// The optional bytes of a table are those of its arrays from a place on.
pub proof fn law_optional_bytes_add_up(descriptors: Seq<ArrayDescriptor>, from: int)
    requires
        0 <= from < descriptors.len(),
    ensures
        optional_bytes(descriptors, descriptors.len() as int) == 0,
        optional_bytes(descriptors, from) == descriptors[from].count * descriptors[from].kind.width()
            + optional_bytes(descriptors, from + 1),
{
}

/// Elevation metadata is sound exactly where the interval is positive, the
/// coverage a share, and no more edges are inferred than there are. A graph
/// agrees with it where both have elevations, or neither.
pub proof fn law_elevations_come_with_their_metadata(
    has_elevations: bool,
    meta: ElevationMeta,
    edge_count: u32,
)
    ensures
        elevation_fault(meta, edge_count) is None <==> f64_is_positive(meta.sampling_interval)
            && f64_is_fraction(meta.coverage) && meta.inferred_edges <= edge_count,
        elevations_agree(has_elevations, None, edge_count) <==> !has_elevations,
        elevations_agree(has_elevations, Some(meta), edge_count) <==> has_elevations
            && f64_is_positive(meta.sampling_interval) && f64_is_fraction(meta.coverage)
            && meta.inferred_edges <= edge_count,
{
}

/// A hierarchy needs streets of as many vertices and its own consistency;
/// where the rows were read, their fingerprint too. No hierarchy needs
/// nothing.
pub proof fn law_hierarchies_fit_their_streets(
    hierarchy: HierarchyFacts,
    streets: GraphFacts,
    rows_read: bool,
)
    ensures
        hierarchy_fits(None, Some(streets), rows_read),
        hierarchy_fits(None, None, rows_read),
        !hierarchy_fits(Some(hierarchy), None, rows_read),
        hierarchy_fits(Some(hierarchy), Some(streets), rows_read) <==> hierarchy.vertex_count
            == streets.vertex_count && hierarchy.consistent && (rows_read ==> hierarchy.fingerprint
            == streets.fingerprint),
{
}

} // verus!
