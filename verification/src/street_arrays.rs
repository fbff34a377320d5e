//! The street layer's arrays and how they are stored: one after the other
//! in a fixed order, each on an 8-byte boundary, as raw little-endian
//! values located by a descriptor table.

use crate::bytes::{
    from_i32_bits, i32_bits, i32_of_bits, le_bytes, le_limit, lemma_le_limits, push_le,
    to_i32_bits,
};
use crate::container::{aligned, lemma_aligned, zeros};
use vstd::prelude::*;

verus! {

/// Every street array starts on this boundary within its section.
pub const ARRAY_ALIGNMENT: u64 = 8;

/// The street arrays, in their fixed on-disk order. The first thirteen are
/// the mandatory core graph; the trailing nine are the optional multimodal
/// arrays, which a walk-only artifact omits.
#[derive(Clone, Copy, PartialEq, Eq, Debug, Structural)]
pub enum StreetArray {
    AdjacencyOffsets,
    AdjTargets,
    AdjMeters,
    AdjEdges,
    Endpoints,
    Lengths,
    CoordinateOffsets,
    Lons,
    Lats,
    Cumulative,
    IndexBoxes,
    IndexPayload,
    IndexLevelStarts,
    AdjAccess,
    AdjFacility,
    EdgeHighway,
    EdgeSurface,
    EdgeSmoothness,
    EdgeFlags,
    CoordinateElevations,
    AdjCarSpeed,
    AdjJunction,
}

/// Element type of a raw street array.
#[derive(Clone, Copy, PartialEq, Eq, Debug, Structural)]
pub enum ArrayKind {
    U8,
    U16,
    U32,
    I32,
    F32,
    F64,
}

impl ArrayKind {
    /// Bytes per element.
    pub open spec fn width(self) -> nat {
        match self {
            ArrayKind::U8 => 1,
            ArrayKind::U16 => 2,
            ArrayKind::U32 | ArrayKind::I32 | ArrayKind::F32 => 4,
            ArrayKind::F64 => 8,
        }
    }

    pub fn size(self) -> (bytes: u64)
        ensures
            bytes == self.width(),
    {
        match self {
            ArrayKind::U8 => 1,
            ArrayKind::U16 => 2,
            ArrayKind::U32 | ArrayKind::I32 | ArrayKind::F32 => 4,
            ArrayKind::F64 => 8,
        }
    }
}

/// The core arrays and their element kinds.
pub const STREET_ARRAY_ORDER: [(StreetArray, ArrayKind); 13] = [
    (StreetArray::AdjacencyOffsets, ArrayKind::U32),
    (StreetArray::AdjTargets, ArrayKind::U32),
    (StreetArray::AdjMeters, ArrayKind::F64),
    (StreetArray::AdjEdges, ArrayKind::U32),
    (StreetArray::Endpoints, ArrayKind::U32),
    (StreetArray::Lengths, ArrayKind::F64),
    (StreetArray::CoordinateOffsets, ArrayKind::U32),
    (StreetArray::Lons, ArrayKind::I32),
    (StreetArray::Lats, ArrayKind::I32),
    (StreetArray::Cumulative, ArrayKind::F32),
    (StreetArray::IndexBoxes, ArrayKind::I32),
    (StreetArray::IndexPayload, ArrayKind::U32),
    (StreetArray::IndexLevelStarts, ArrayKind::U32),
];

/// The optional arrays in their canonical order. A table stores an
/// order-preserving subsequence of these behind the core arrays.
pub const OPTIONAL_STREET_ARRAY_ORDER: [(StreetArray, ArrayKind); 9] = [
    (StreetArray::AdjAccess, ArrayKind::U8),
    (StreetArray::AdjFacility, ArrayKind::U8),
    (StreetArray::EdgeHighway, ArrayKind::U8),
    (StreetArray::EdgeSurface, ArrayKind::U8),
    (StreetArray::EdgeSmoothness, ArrayKind::U8),
    (StreetArray::EdgeFlags, ArrayKind::U16),
    (StreetArray::CoordinateElevations, ArrayKind::F32),
    (StreetArray::AdjCarSpeed, ArrayKind::F32),
    (StreetArray::AdjJunction, ArrayKind::U8),
];

/// One raw array inside the STREETS section. Offsets are relative to the
/// section start, so the descriptor table is complete before the file
/// layout is.
#[derive(Clone, Copy, PartialEq, Eq, Debug, Structural)]
pub struct ArrayDescriptor {
    pub array: StreetArray,
    pub kind: ArrayKind,
    pub count: u64,
    pub offset: u64,
}

/// A stop linked to the street graph: the edge it snapped to, how far along
/// (a double's bits), the connector length in meters (a double's bits) and
/// the edge's endpoints restated.
#[derive(Clone, Copy, PartialEq, Eq, Debug, Structural)]
pub struct StoredLink {
    pub stop: u32,
    pub edge: u32,
    pub fraction: u64,
    pub connector: u64,
    pub from: u32,
    pub to: u32,
}

/// Per-slot and per-edge attributes of a multimodal graph.
pub struct StreetAttributes {
    pub adj_access: Vec<u8>,
    pub adj_facility: Vec<u8>,
    pub edge_highway: Vec<u8>,
    pub edge_surface: Vec<u8>,
    pub edge_smoothness: Vec<u8>,
    pub edge_flags: Vec<u16>,
}

/// Per-slot driving speeds (singles' bits, km/h) and junction head classes.
pub struct CarAttributes {
    pub adj_car_speed: Vec<u32>,
    pub adj_junction: Vec<u8>,
}

/// A street network taken apart into its arrays. Meters, fractions and
/// elevations are floating-point bit patterns.
pub struct StreetNetworkParts {
    pub vertex_count: u32,
    pub adjacency_offsets: Vec<u32>,
    pub adj_targets: Vec<u32>,
    pub adj_meters: Vec<u64>,
    pub adj_edges: Vec<u32>,
    pub endpoints: Vec<u32>,
    pub lengths: Vec<u64>,
    pub coordinate_offsets: Vec<u32>,
    pub lons: Vec<i32>,
    pub lats: Vec<i32>,
    pub cumulative: Vec<u32>,
    pub index_boxes: Vec<i32>,
    pub index_payload: Vec<u32>,
    pub index_level_starts: Vec<u32>,
    pub links: Vec<StoredLink>,
    pub attributes: Option<StreetAttributes>,
    pub car: Option<CarAttributes>,
    pub elevations: Option<Vec<u32>>,
}

#[verifier::ext_equal]
pub struct AttributeModel {
    pub adj_access: Seq<u8>,
    pub adj_facility: Seq<u8>,
    pub edge_highway: Seq<u8>,
    pub edge_surface: Seq<u8>,
    pub edge_smoothness: Seq<u8>,
    pub edge_flags: Seq<u16>,
}

#[verifier::ext_equal]
pub struct CarModel {
    pub adj_car_speed: Seq<u32>,
    pub adj_junction: Seq<u8>,
}

/// What a street network's arrays hold.
#[verifier::ext_equal]
pub struct StreetModel {
    pub vertex_count: u32,
    pub adjacency_offsets: Seq<u32>,
    pub adj_targets: Seq<u32>,
    pub adj_meters: Seq<u64>,
    pub adj_edges: Seq<u32>,
    pub endpoints: Seq<u32>,
    pub lengths: Seq<u64>,
    pub coordinate_offsets: Seq<u32>,
    pub lons: Seq<i32>,
    pub lats: Seq<i32>,
    pub cumulative: Seq<u32>,
    pub index_boxes: Seq<i32>,
    pub index_payload: Seq<u32>,
    pub index_level_starts: Seq<u32>,
    pub links: Seq<StoredLink>,
    pub attributes: Option<AttributeModel>,
    pub car: Option<CarModel>,
    pub elevations: Option<Seq<u32>>,
}

impl View for StreetAttributes {
    type V = AttributeModel;

    open spec fn view(&self) -> AttributeModel {
        AttributeModel {
            adj_access: self.adj_access@,
            adj_facility: self.adj_facility@,
            edge_highway: self.edge_highway@,
            edge_surface: self.edge_surface@,
            edge_smoothness: self.edge_smoothness@,
            edge_flags: self.edge_flags@,
        }
    }
}

impl View for CarAttributes {
    type V = CarModel;

    open spec fn view(&self) -> CarModel {
        CarModel { adj_car_speed: self.adj_car_speed@, adj_junction: self.adj_junction@ }
    }
}

impl View for StreetNetworkParts {
    type V = StreetModel;

    open spec fn view(&self) -> StreetModel {
        StreetModel {
            vertex_count: self.vertex_count,
            adjacency_offsets: self.adjacency_offsets@,
            adj_targets: self.adj_targets@,
            adj_meters: self.adj_meters@,
            adj_edges: self.adj_edges@,
            endpoints: self.endpoints@,
            lengths: self.lengths@,
            coordinate_offsets: self.coordinate_offsets@,
            lons: self.lons@,
            lats: self.lats@,
            cumulative: self.cumulative@,
            index_boxes: self.index_boxes@,
            index_payload: self.index_payload@,
            index_level_starts: self.index_level_starts@,
            links: self.links@,
            attributes: match self.attributes {
                Some(attributes) => Some(attributes@),
                None => None,
            },
            car: match self.car {
                Some(car) => Some(car@),
                None => None,
            },
            elevations: match self.elevations {
                Some(elevations) => Some(elevations@),
                None => None,
            },
        }
    }
}

/// A fixed-width value that an array stores by its bit pattern.
pub trait Pattern: Copy {
    /// Bytes per value.
    spec fn width() -> nat;

    spec fn pattern(self) -> nat;

    spec fn of_pattern(bits: nat) -> Self;

    /// A value's pattern fits its width and stands for that value alone.
    proof fn lemma_pattern(value: Self)
        ensures
            value.pattern() < le_limit(Self::width()),
            Self::of_pattern(value.pattern()) == value,
            Self::width() <= 8,
    ;

    fn to_bits(self) -> (bits: u64)
        ensures
            bits == self.pattern(),
    ;

    fn from_bits(bits: u64) -> (value: Self)
        requires
            bits < le_limit(Self::width()),
        ensures
            value == Self::of_pattern(bits as nat),
    ;
}

impl Pattern for u8 {
    open spec fn width() -> nat {
        1
    }

    open spec fn pattern(self) -> nat {
        self as nat
    }

    open spec fn of_pattern(bits: nat) -> u8 {
        bits as u8
    }

    proof fn lemma_pattern(value: u8) {
        lemma_le_limits();
    }

    fn to_bits(self) -> (bits: u64) {
        self as u64
    }

    fn from_bits(bits: u64) -> (value: u8) {
        proof {
            lemma_le_limits();
        }
        bits as u8
    }
}

impl Pattern for u16 {
    open spec fn width() -> nat {
        2
    }

    open spec fn pattern(self) -> nat {
        self as nat
    }

    open spec fn of_pattern(bits: nat) -> u16 {
        bits as u16
    }

    proof fn lemma_pattern(value: u16) {
        lemma_le_limits();
    }

    fn to_bits(self) -> (bits: u64) {
        self as u64
    }

    fn from_bits(bits: u64) -> (value: u16) {
        proof {
            lemma_le_limits();
        }
        bits as u16
    }
}

impl Pattern for u32 {
    open spec fn width() -> nat {
        4
    }

    open spec fn pattern(self) -> nat {
        self as nat
    }

    open spec fn of_pattern(bits: nat) -> u32 {
        bits as u32
    }

    proof fn lemma_pattern(value: u32) {
        lemma_le_limits();
    }

    fn to_bits(self) -> (bits: u64) {
        self as u64
    }

    fn from_bits(bits: u64) -> (value: u32) {
        proof {
            lemma_le_limits();
        }
        bits as u32
    }
}

impl Pattern for i32 {
    open spec fn width() -> nat {
        4
    }

    open spec fn pattern(self) -> nat {
        i32_bits(self) as nat
    }

    open spec fn of_pattern(bits: nat) -> i32 {
        i32_of_bits(bits as u32)
    }

    proof fn lemma_pattern(value: i32) {
        lemma_le_limits();
    }

    fn to_bits(self) -> (bits: u64) {
        to_i32_bits(self) as u64
    }

    fn from_bits(bits: u64) -> (value: i32) {
        proof {
            lemma_le_limits();
        }
        from_i32_bits(bits as u32)
    }
}

impl Pattern for u64 {
    open spec fn width() -> nat {
        8
    }

    open spec fn pattern(self) -> nat {
        self as nat
    }

    open spec fn of_pattern(bits: nat) -> u64 {
        bits as u64
    }

    proof fn lemma_pattern(value: u64) {
        lemma_le_limits();
    }

    fn to_bits(self) -> (bits: u64) {
        self
    }

    fn from_bits(bits: u64) -> (value: u64) {
        bits
    }
}

pub open spec fn patterns<T: Pattern>(values: Seq<T>) -> Seq<nat> {
    values.map_values(|value: T| value.pattern())
}

/// One array ready to be stored: which it is, and its values' patterns.
#[verifier::ext_equal]
pub struct StoredArray {
    pub array: StreetArray,
    pub kind: ArrayKind,
    pub values: Seq<nat>,
}

pub open spec fn stored<T: Pattern>(
    array: StreetArray,
    kind: ArrayKind,
    values: Seq<T>,
) -> StoredArray {
    StoredArray { array, kind, values: patterns(values) }
}

/// The core arrays of a network, in storage order.
pub open spec fn core_arrays(streets: StreetModel) -> Seq<StoredArray> {
    seq![
        stored(StreetArray::AdjacencyOffsets, ArrayKind::U32, streets.adjacency_offsets),
        stored(StreetArray::AdjTargets, ArrayKind::U32, streets.adj_targets),
        stored(StreetArray::AdjMeters, ArrayKind::F64, streets.adj_meters),
        stored(StreetArray::AdjEdges, ArrayKind::U32, streets.adj_edges),
        stored(StreetArray::Endpoints, ArrayKind::U32, streets.endpoints),
        stored(StreetArray::Lengths, ArrayKind::F64, streets.lengths),
        stored(StreetArray::CoordinateOffsets, ArrayKind::U32, streets.coordinate_offsets),
        stored(StreetArray::Lons, ArrayKind::I32, streets.lons),
        stored(StreetArray::Lats, ArrayKind::I32, streets.lats),
        stored(StreetArray::Cumulative, ArrayKind::F32, streets.cumulative),
        stored(StreetArray::IndexBoxes, ArrayKind::I32, streets.index_boxes),
        stored(StreetArray::IndexPayload, ArrayKind::U32, streets.index_payload),
        stored(StreetArray::IndexLevelStarts, ArrayKind::U32, streets.index_level_starts),
    ]
}

pub open spec fn attribute_arrays(attributes: Option<AttributeModel>) -> Seq<StoredArray> {
    match attributes {
        Some(attributes) => seq![
            stored(StreetArray::AdjAccess, ArrayKind::U8, attributes.adj_access),
            stored(StreetArray::AdjFacility, ArrayKind::U8, attributes.adj_facility),
            stored(StreetArray::EdgeHighway, ArrayKind::U8, attributes.edge_highway),
            stored(StreetArray::EdgeSurface, ArrayKind::U8, attributes.edge_surface),
            stored(StreetArray::EdgeSmoothness, ArrayKind::U8, attributes.edge_smoothness),
            stored(StreetArray::EdgeFlags, ArrayKind::U16, attributes.edge_flags),
        ],
        None => Seq::empty(),
    }
}

pub open spec fn elevation_arrays(elevations: Option<Seq<u32>>) -> Seq<StoredArray> {
    match elevations {
        Some(elevations) => seq![
            stored(StreetArray::CoordinateElevations, ArrayKind::F32, elevations),
        ],
        None => Seq::empty(),
    }
}

pub open spec fn car_arrays(car: Option<CarModel>) -> Seq<StoredArray> {
    match car {
        Some(car) => seq![
            stored(StreetArray::AdjCarSpeed, ArrayKind::F32, car.adj_car_speed),
            stored(StreetArray::AdjJunction, ArrayKind::U8, car.adj_junction),
        ],
        None => Seq::empty(),
    }
}

/// Every array of a network, in storage order: the core graph, then the
/// attribute group, the elevations and the car group as far as present.
pub open spec fn stored_arrays(streets: StreetModel) -> Seq<StoredArray> {
    core_arrays(streets) + attribute_arrays(streets.attributes) + elevation_arrays(
        streets.elevations,
    ) + car_arrays(streets.car)
}

/// Values side by side, `width` bytes each.
pub open spec fn value_bytes(values: Seq<nat>, width: nat) -> Seq<u8>
    decreases values.len(),
{
    if values.len() == 0 {
        Seq::empty()
    } else {
        value_bytes(values.drop_last(), width) + le_bytes(values.last(), width)
    }
}

/// Zero bytes up to the next array boundary.
pub open spec fn padded(bytes: Seq<u8>) -> Seq<u8> {
    bytes + zeros((aligned(bytes.len(), ARRAY_ALIGNMENT as nat) - bytes.len()) as nat)
}

/// The bytes of arrays stored one after the other.
pub open spec fn array_bytes(arrays: Seq<StoredArray>) -> Seq<u8>
    decreases arrays.len(),
{
    if arrays.len() == 0 {
        Seq::empty()
    } else {
        padded(array_bytes(arrays.drop_last())) + value_bytes(
            arrays.last().values,
            arrays.last().kind.width(),
        )
    }
}

/// Where the array behind `arrays` starts.
pub open spec fn array_start(arrays: Seq<StoredArray>) -> nat {
    aligned(array_bytes(arrays).len(), ARRAY_ALIGNMENT as nat)
}

/// The table locating each array.
pub open spec fn array_table(arrays: Seq<StoredArray>) -> Seq<ArrayDescriptor> {
    Seq::new(
        arrays.len(),
        |i: int|
            ArrayDescriptor {
                array: arrays[i].array,
                kind: arrays[i].kind,
                count: arrays[i].values.len() as u64,
                offset: array_start(arrays.subrange(0, i)) as u64,
            },
    )
}

fn push_array<T: Pattern>(
    bytes: &mut Vec<u8>,
    descriptors: &mut Vec<ArrayDescriptor>,
    Ghost(arrays): Ghost<Seq<StoredArray>>,
    array: StreetArray,
    kind: ArrayKind,
    values: &[T],
)
    requires
        kind.width() == T::width(),
        old(bytes)@ == array_bytes(arrays),
        old(descriptors)@ == array_table(arrays),
    ensures
        final(bytes)@ == array_bytes(arrays.push(stored(array, kind, values@))),
        final(descriptors)@ == array_table(arrays.push(stored(array, kind, values@))),
{
    let ghost added = arrays.push(stored(array, kind, values@));
    let ghost start = bytes@;
    proof {
        lemma_aligned(start.len(), ARRAY_ALIGNMENT as nat);
        assert(start + zeros(0) =~= start);
    }
    while bytes.len() as u64 % ARRAY_ALIGNMENT != 0
        invariant
            start.len() <= bytes@.len() <= aligned(start.len(), ARRAY_ALIGNMENT as nat),
            aligned(start.len(), ARRAY_ALIGNMENT as nat) % 8 == 0,
            aligned(start.len(), ARRAY_ALIGNMENT as nat) < start.len() + 8,
            bytes@ == start + zeros((bytes@.len() - start.len()) as nat),
        decreases aligned(start.len(), ARRAY_ALIGNMENT as nat) - bytes@.len(),
    {
        bytes.push(0);
        assert(bytes@ =~= start + zeros((bytes@.len() - start.len()) as nat));
    }
    assert(bytes@.len() == aligned(start.len(), ARRAY_ALIGNMENT as nat));
    assert(bytes@ == padded(start));
    descriptors.push(
        ArrayDescriptor {
            array,
            kind,
            count: values.len() as u64,
            offset: bytes.len() as u64,
        },
    );
    proof {
        assert(added.drop_last() =~= arrays);
        assert forall|i: int| 0 <= i < added.len() implies descriptors@[i] == array_table(
            added,
        )[i] by {
            assert(added.subrange(0, i) =~= arrays.subrange(0, i));
            if i == arrays.len() {
                assert(arrays.subrange(0, i) =~= arrays);
            }
        }
        assert(descriptors@ =~= array_table(added));
    }
    let width: usize = kind.size() as usize;
    let mut index: usize = 0;
    let ghost all = patterns(values@);
    assert(value_bytes(all.subrange(0, 0), width as nat) =~= Seq::empty());
    assert(padded(start) + Seq::<u8>::empty() =~= padded(start));
    while index < values.len()
        invariant
            index <= values.len(),
            width == T::width(),
            all == patterns(values@),
            bytes@ == padded(start) + value_bytes(all.subrange(0, index as int), width as nat),
        decreases values.len() - index,
    {
        let value: T = values[index];
        push_le(bytes, value.to_bits(), width);
        proof {
            let taken = all.subrange(0, index + 1);
            assert(taken.drop_last() =~= all.subrange(0, index as int));
            assert(bytes@ =~= padded(start) + value_bytes(taken, width as nat));
        }
        index += 1;
    }
    assert(all.subrange(0, all.len() as int) =~= all);
}

/// Serializes a street network's parts into the raw STREETS bytes and the
/// descriptor table locating each array within them.
pub fn encode_streets(parts: &StreetNetworkParts) -> (encoded: (Vec<ArrayDescriptor>, Vec<u8>))
    ensures
        encoded.0@ == array_table(stored_arrays(parts@)),
        encoded.1@ == array_bytes(stored_arrays(parts@)),
{
    let mut bytes: Vec<u8> = Vec::new();
    let mut descriptors: Vec<ArrayDescriptor> = Vec::new();
    let ghost core = core_arrays(parts@);
    let ghost none: Seq<StoredArray> = Seq::empty();
    assert(descriptors@ =~= array_table(none));
    push_array(
        &mut bytes,
        &mut descriptors,
        Ghost(none),
        StreetArray::AdjacencyOffsets,
        ArrayKind::U32,
        parts.adjacency_offsets.as_slice(),
    );
    assert(core.subrange(0, 1) =~= none.push(core[0]));
    push_array(
        &mut bytes,
        &mut descriptors,
        Ghost(core.subrange(0, 1)),
        StreetArray::AdjTargets,
        ArrayKind::U32,
        parts.adj_targets.as_slice(),
    );
    assert(core.subrange(0, 2) =~= core.subrange(0, 1).push(core[1]));
    push_array(
        &mut bytes,
        &mut descriptors,
        Ghost(core.subrange(0, 2)),
        StreetArray::AdjMeters,
        ArrayKind::F64,
        parts.adj_meters.as_slice(),
    );
    assert(core.subrange(0, 3) =~= core.subrange(0, 2).push(core[2]));
    push_array(
        &mut bytes,
        &mut descriptors,
        Ghost(core.subrange(0, 3)),
        StreetArray::AdjEdges,
        ArrayKind::U32,
        parts.adj_edges.as_slice(),
    );
    assert(core.subrange(0, 4) =~= core.subrange(0, 3).push(core[3]));
    push_array(
        &mut bytes,
        &mut descriptors,
        Ghost(core.subrange(0, 4)),
        StreetArray::Endpoints,
        ArrayKind::U32,
        parts.endpoints.as_slice(),
    );
    assert(core.subrange(0, 5) =~= core.subrange(0, 4).push(core[4]));
    push_array(
        &mut bytes,
        &mut descriptors,
        Ghost(core.subrange(0, 5)),
        StreetArray::Lengths,
        ArrayKind::F64,
        parts.lengths.as_slice(),
    );
    assert(core.subrange(0, 6) =~= core.subrange(0, 5).push(core[5]));
    push_array(
        &mut bytes,
        &mut descriptors,
        Ghost(core.subrange(0, 6)),
        StreetArray::CoordinateOffsets,
        ArrayKind::U32,
        parts.coordinate_offsets.as_slice(),
    );
    assert(core.subrange(0, 7) =~= core.subrange(0, 6).push(core[6]));
    push_array(
        &mut bytes,
        &mut descriptors,
        Ghost(core.subrange(0, 7)),
        StreetArray::Lons,
        ArrayKind::I32,
        parts.lons.as_slice(),
    );
    assert(core.subrange(0, 8) =~= core.subrange(0, 7).push(core[7]));
    push_array(
        &mut bytes,
        &mut descriptors,
        Ghost(core.subrange(0, 8)),
        StreetArray::Lats,
        ArrayKind::I32,
        parts.lats.as_slice(),
    );
    assert(core.subrange(0, 9) =~= core.subrange(0, 8).push(core[8]));
    push_array(
        &mut bytes,
        &mut descriptors,
        Ghost(core.subrange(0, 9)),
        StreetArray::Cumulative,
        ArrayKind::F32,
        parts.cumulative.as_slice(),
    );
    assert(core.subrange(0, 10) =~= core.subrange(0, 9).push(core[9]));
    push_array(
        &mut bytes,
        &mut descriptors,
        Ghost(core.subrange(0, 10)),
        StreetArray::IndexBoxes,
        ArrayKind::I32,
        parts.index_boxes.as_slice(),
    );
    assert(core.subrange(0, 11) =~= core.subrange(0, 10).push(core[10]));
    push_array(
        &mut bytes,
        &mut descriptors,
        Ghost(core.subrange(0, 11)),
        StreetArray::IndexPayload,
        ArrayKind::U32,
        parts.index_payload.as_slice(),
    );
    assert(core.subrange(0, 12) =~= core.subrange(0, 11).push(core[11]));
    push_array(
        &mut bytes,
        &mut descriptors,
        Ghost(core.subrange(0, 12)),
        StreetArray::IndexLevelStarts,
        ArrayKind::U32,
        parts.index_level_starts.as_slice(),
    );
    assert(core =~= core.subrange(0, 12).push(core[12]));
    push_attributes(&mut bytes, &mut descriptors, Ghost(core), &parts.attributes);
    let ghost with_attributes = core + attribute_arrays(parts@.attributes);
    if let Some(elevations) = &parts.elevations {
        push_array(
            &mut bytes,
            &mut descriptors,
            Ghost(with_attributes),
            StreetArray::CoordinateElevations,
            ArrayKind::F32,
            elevations.as_slice(),
        );
        assert(with_attributes.push(
            stored(StreetArray::CoordinateElevations, ArrayKind::F32, elevations@),
        ) =~= with_attributes + elevation_arrays(parts@.elevations));
    } else {
        assert(with_attributes =~= with_attributes + elevation_arrays(parts@.elevations));
    }
    let ghost with_elevations = with_attributes + elevation_arrays(parts@.elevations);
    if let Some(car) = &parts.car {
        push_array(
            &mut bytes,
            &mut descriptors,
            Ghost(with_elevations),
            StreetArray::AdjCarSpeed,
            ArrayKind::F32,
            car.adj_car_speed.as_slice(),
        );
        push_array(
            &mut bytes,
            &mut descriptors,
            Ghost(with_elevations.push(car_arrays(parts@.car)[0])),
            StreetArray::AdjJunction,
            ArrayKind::U8,
            car.adj_junction.as_slice(),
        );
        assert(with_elevations.push(car_arrays(parts@.car)[0]).push(car_arrays(parts@.car)[1])
            =~= stored_arrays(parts@));
    } else {
        assert(with_elevations =~= stored_arrays(parts@));
    }
    (descriptors, bytes)
}

fn push_attributes(
    bytes: &mut Vec<u8>,
    descriptors: &mut Vec<ArrayDescriptor>,
    Ghost(arrays): Ghost<Seq<StoredArray>>,
    attributes: &Option<StreetAttributes>,
)
    requires
        old(bytes)@ == array_bytes(arrays),
        old(descriptors)@ == array_table(arrays),
    ensures
        ({
            let model = match *attributes {
                Some(attributes) => Some(attributes@),
                None => None,
            };
            let added = arrays + attribute_arrays(model);
            &&& final(bytes)@ == array_bytes(added)
            &&& final(descriptors)@ == array_table(added)
        }),
{
    if let Some(attributes) = attributes {
        let ghost group = attribute_arrays(Some(attributes@));
        push_array(
            bytes,
            descriptors,
            Ghost(arrays),
            StreetArray::AdjAccess,
            ArrayKind::U8,
            attributes.adj_access.as_slice(),
        );
        push_array(
            bytes,
            descriptors,
            Ghost(arrays.push(group[0])),
            StreetArray::AdjFacility,
            ArrayKind::U8,
            attributes.adj_facility.as_slice(),
        );
        push_array(
            bytes,
            descriptors,
            Ghost(arrays.push(group[0]).push(group[1])),
            StreetArray::EdgeHighway,
            ArrayKind::U8,
            attributes.edge_highway.as_slice(),
        );
        push_array(
            bytes,
            descriptors,
            Ghost(arrays.push(group[0]).push(group[1]).push(group[2])),
            StreetArray::EdgeSurface,
            ArrayKind::U8,
            attributes.edge_surface.as_slice(),
        );
        push_array(
            bytes,
            descriptors,
            Ghost(arrays.push(group[0]).push(group[1]).push(group[2]).push(group[3])),
            StreetArray::EdgeSmoothness,
            ArrayKind::U8,
            attributes.edge_smoothness.as_slice(),
        );
        push_array(
            bytes,
            descriptors,
            Ghost(
                arrays.push(group[0]).push(group[1]).push(group[2]).push(group[3]).push(group[4]),
            ),
            StreetArray::EdgeFlags,
            ArrayKind::U16,
            attributes.edge_flags.as_slice(),
        );
        assert(arrays.push(group[0]).push(group[1]).push(group[2]).push(group[3]).push(
            group[4],
        ).push(group[5]) =~= arrays + group);
    } else {
        assert(arrays + attribute_arrays(None) =~= arrays);
    }
}

/// Whether a stored array is the one of a name and kind that holds some
/// values, in order.
pub open spec fn holds_values<T: Pattern>(
    held: StoredArray,
    array: StreetArray,
    kind: ArrayKind,
    values: Seq<T>,
) -> bool {
    &&& held.array == array
    &&& held.kind == kind
    &&& held.values.len() == values.len()
    &&& forall|i: int| 0 <= i < values.len() ==> #[trigger] held.values[i] == values[i].pattern()
}

/// The core arrays stand at fixed places, each of its own kind, and hold the
/// network's own values.
pub proof fn law_core_arrays_have_their_place(streets: StreetModel)
    ensures
        ({
            let arrays = stored_arrays(streets);
            &&& arrays.len() >= 13
            &&& holds_values(arrays[0], StreetArray::AdjacencyOffsets, ArrayKind::U32, streets.adjacency_offsets)
            &&& holds_values(arrays[1], StreetArray::AdjTargets, ArrayKind::U32, streets.adj_targets)
            &&& holds_values(arrays[2], StreetArray::AdjMeters, ArrayKind::F64, streets.adj_meters)
            &&& holds_values(arrays[3], StreetArray::AdjEdges, ArrayKind::U32, streets.adj_edges)
            &&& holds_values(arrays[4], StreetArray::Endpoints, ArrayKind::U32, streets.endpoints)
            &&& holds_values(arrays[5], StreetArray::Lengths, ArrayKind::F64, streets.lengths)
            &&& holds_values(arrays[6], StreetArray::CoordinateOffsets, ArrayKind::U32, streets.coordinate_offsets)
            &&& holds_values(arrays[7], StreetArray::Lons, ArrayKind::I32, streets.lons)
            &&& holds_values(arrays[8], StreetArray::Lats, ArrayKind::I32, streets.lats)
            &&& holds_values(arrays[9], StreetArray::Cumulative, ArrayKind::F32, streets.cumulative)
            &&& holds_values(arrays[10], StreetArray::IndexBoxes, ArrayKind::I32, streets.index_boxes)
            &&& holds_values(arrays[11], StreetArray::IndexPayload, ArrayKind::U32, streets.index_payload)
            &&& holds_values(arrays[12], StreetArray::IndexLevelStarts, ArrayKind::U32, streets.index_level_starts)
        }),
{
    let arrays = stored_arrays(streets);
    assert(arrays.subrange(0, 13) =~= core_arrays(streets));
    assert forall|i: int| 0 <= i < 13 implies #[trigger] arrays[i] == core_arrays(streets)[i] by {
    }
}

/// Behind the core stand the attributes, where there are some, in their order;
/// then the elevations; then the car's arrays.
pub proof fn law_optional_arrays_have_their_place(streets: StreetModel)
    ensures
        ({
            let arrays = stored_arrays(streets);
            let attributes: int = if streets.attributes is Some {
                6
            } else {
                0
            };
            let elevations: int = if streets.elevations is Some {
                1
            } else {
                0
            };
            let car: int = if streets.car is Some {
                2
            } else {
                0
            };
            let behind = 13 + attributes;
            &&& arrays.len() == 13 + attributes + elevations + car
            &&& streets.attributes matches Some(held) ==> {
                &&& holds_values(arrays[13], StreetArray::AdjAccess, ArrayKind::U8, held.adj_access)
                &&& holds_values(
                    arrays[14],
                    StreetArray::AdjFacility,
                    ArrayKind::U8,
                    held.adj_facility,
                )
                &&& holds_values(
                    arrays[15],
                    StreetArray::EdgeHighway,
                    ArrayKind::U8,
                    held.edge_highway,
                )
                &&& holds_values(
                    arrays[16],
                    StreetArray::EdgeSurface,
                    ArrayKind::U8,
                    held.edge_surface,
                )
                &&& holds_values(
                    arrays[17],
                    StreetArray::EdgeSmoothness,
                    ArrayKind::U8,
                    held.edge_smoothness,
                )
                &&& holds_values(arrays[18], StreetArray::EdgeFlags, ArrayKind::U16, held.edge_flags)
            }
            &&& streets.elevations matches Some(held) ==> holds_values(
                arrays[behind],
                StreetArray::CoordinateElevations,
                ArrayKind::F32,
                held,
            )
            &&& streets.car matches Some(held) ==> {
                &&& holds_values(
                    arrays[behind + elevations],
                    StreetArray::AdjCarSpeed,
                    ArrayKind::F32,
                    held.adj_car_speed,
                )
                &&& holds_values(
                    arrays[behind + elevations + 1],
                    StreetArray::AdjJunction,
                    ArrayKind::U8,
                    held.adj_junction,
                )
            }
        }),
{
}

/// A kind takes as many bytes as its name says bits.
pub proof fn law_kinds_have_their_width()
    ensures
        8 * ArrayKind::U8.width() == 8,
        8 * ArrayKind::U16.width() == 16,
        8 * ArrayKind::U32.width() == 32,
        8 * ArrayKind::I32.width() == 32,
        8 * ArrayKind::F32.width() == 32,
        8 * ArrayKind::F64.width() == 64,
{
}

/// Padding adds fewer than eight zeros, up to a multiple of eight.
pub proof fn law_padding_reaches_the_boundary(bytes: Seq<u8>, at: int)
    ensures
        padded(bytes).len() % 8 == 0,
        bytes.len() <= padded(bytes).len() < bytes.len() + 8,
        0 <= at < bytes.len() ==> padded(bytes)[at] == bytes[at],
        bytes.len() <= at < padded(bytes).len() ==> padded(bytes)[at] == 0,
{
    lemma_aligned(bytes.len(), ARRAY_ALIGNMENT as nat);
}

/// A table names each array with its kind and count, in order.
pub proof fn law_tables_name_their_arrays(arrays: Seq<StoredArray>, i: int)
    requires
        0 <= i < arrays.len(),
        arrays[i].values.len() <= u64::MAX,
    ensures
        array_table(arrays).len() == arrays.len(),
        array_table(arrays)[i].array == arrays[i].array,
        array_table(arrays)[i].kind == arrays[i].kind,
        array_table(arrays)[i].count == arrays[i].values.len(),
        array_table(arrays)[0].offset == 0,
{
    assert(arrays.subrange(0, 0) =~= Seq::<StoredArray>::empty());
    lemma_aligned(0, ARRAY_ALIGNMENT as nat);
}

} // verus!
