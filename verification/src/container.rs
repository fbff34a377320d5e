//! The versioned artifact container: header, section directory, META and
//! STREETS.
//!
//! ```text
//! magic (8) | format u32 | version length u16 | version | section count u32
//! | META entry | STREETS entry | META … zero padding … | STREETS
//! ```
//!
//! A directory entry is a tag (u16), the section's offset and length (u64
//! each) and its checksum (u32). Every integer is little-endian.

use crate::bytes::{
    law_le_round_trip, le_bytes, le_value, lemma_le_bytes_len, lemma_le_limits,
    lemma_le_value_bound, push_le, read_le,
};
use crate::crc::{checksum, crc32};
use crate::text::{decimal, decimal_text, joined, joined_text, outcome, ValueError};
use vstd::prelude::*;
use vstd::utf8::{decode_utf8, valid_utf8};

verus! {

/// `CAFEINET`: a whole network.
pub const ARTIFACT_MAGIC: [u8; 8] = [0x43, 0x41, 0x46, 0x45, 0x49, 0x4E, 0x45, 0x54];

/// `CAFEINST`: a street network alone. A distinct magic keeps the two kinds
/// apart: loading one as the other reports the wrong kind rather than
/// failing later in a checksum or a decode.
pub const STREET_ARTIFACT_MAGIC: [u8; 8] = [0x43, 0x41, 0x46, 0x45, 0x49, 0x4E, 0x53, 0x54];

pub const ARTIFACT_FORMAT: u32 = 20;

pub const STREET_ARTIFACT_FORMAT: u32 = 4;

/// Section tags in the container directory.
pub const SECTION_META: u16 = 1;

pub const SECTION_STREETS: u16 = 2;

/// A non-empty STREETS section starts on this boundary (it covers every
/// platform's page and allocation granularity), so a mapped load never
/// shares an OS page between META and STREETS.
pub const STREETS_ALIGNMENT: u64 = 65_536;

/// Bytes before the version text, and of the whole directory.
pub const FIXED_HEADER: u64 = 14;

pub const DIRECTORY: u64 = 48;

/// The section directory of a parsed container: where the sections lie and
/// what their checksums should be. Nothing here says they are.
#[derive(Debug, Clone, Copy, PartialEq, Eq, Structural)]
pub struct ContainerLayout {
    pub meta_offset: u64,
    pub meta_length: u64,
    pub meta_crc: u32,
    pub streets_offset: u64,
    pub streets_length: u64,
    pub streets_crc: u32,
}

/// The release this library writes into containers it creates.
pub open spec fn version_text() -> Seq<char> {
    "0.1.0"@
}

pub fn version() -> (text: &'static str)
    ensures
        text@ == version_text(),
{
    "0.1.0"
}

pub open spec fn corrupted_text(path: Seq<char>, what: Seq<char>) -> Seq<char> {
    joined_text(
        seq![
            "'"@,
            path,
            "' is corrupted ("@,
            what,
            "); rebuild the network from its inputs and save it again"@,
        ],
    )
}

/// A corrupted-artifact error with the standard rebuild advice.
pub fn corrupted(path: &str, what: &str) -> (error: ValueError)
    ensures
        error.message@ == corrupted_text(path@, what@),
{
    let pieces: [&str; 5] = [
        "'",
        path,
        "' is corrupted (",
        what,
        "); rebuild the network from its inputs and save it again",
    ];
    let text = joined(&pieces);
    assert(pieces@.map_values(|piece: &str| piece@) =~= seq![
        "'"@,
        path@,
        "' is corrupted ("@,
        what@,
        "); rebuild the network from its inputs and save it again"@,
    ]);
    ValueError::new(text)
}

/// The artifact kind that a magic announces, as messages name it.
pub open spec fn kind_text(magic: Seq<u8>) -> Seq<char> {
    if magic == STREET_ARTIFACT_MAGIC@ {
        "street"@
    } else {
        "network"@
    }
}

fn kind_name(magic: &[u8; 8]) -> (name: &'static str)
    ensures
        name@ == kind_text(magic@),
{
    let street: [u8; 8] = STREET_ARTIFACT_MAGIC;
    if same_bytes(magic.as_slice(), street.as_slice()) {
        "street"
    } else {
        "network"
    }
}

pub open spec fn wrong_kind_text(path: Seq<char>, magic: Seq<u8>) -> Seq<char> {
    joined_text(seq!["'"@, path, "' is not a cafein "@, kind_text(magic), " artifact"@])
}

pub open spec fn wrong_format_text(
    path: Seq<char>,
    magic: Seq<u8>,
    format: nat,
    writer: Seq<char>,
) -> Seq<char> {
    joined_text(
        seq![
            "'"@,
            path,
            "' uses "@,
            kind_text(magic),
            " artifact format "@,
            decimal_text(format),
            " (written by cafein "@,
            writer,
            "), which this cafein ("@,
            version_text(),
            ") cannot read; rebuild the network from its inputs and save it again"@,
        ],
    )
}

/// The text of bytes read as UTF-8 with every invalid sequence replaced.
pub uninterp spec fn lossy_utf8(bytes: Seq<u8>) -> Seq<char>;

/// `String::from_utf8_lossy`: valid UTF-8 decodes as it is; what stands in
/// place of invalid sequences is left to the name.
#[verifier::external_body]
fn lossy_text(bytes: &[u8]) -> (text: String)
    ensures
        text@ == lossy_utf8(bytes@),
        valid_utf8(bytes@) ==> text@ == decode_utf8(bytes@),
{
    String::from_utf8_lossy(bytes).into_owned()
}

pub fn same_bytes(left: &[u8], right: &[u8]) -> (same: bool)
    ensures
        same == (left@ == right@),
{
    if left.len() != right.len() {
        return false;
    }
    let mut index: usize = 0;
    while index < left.len()
        invariant
            index <= left.len(),
            left@.len() == right@.len(),
            forall|i: int| 0 <= i < index ==> left@[i] == right@[i],
        decreases left.len() - index,
    {
        if left[index] != right[index] {
            return false;
        }
        index += 1;
    }
    assert(left@ =~= right@);
    true
}

/// The smallest multiple of `alignment` that is at least `position`.
pub open spec fn aligned(position: nat, alignment: nat) -> nat
    recommends
        alignment > 0,
{
    (position + alignment - 1) as nat / alignment * alignment
}

pub open spec fn zeros(count: nat) -> Seq<u8> {
    Seq::new(count, |i: int| 0u8)
}

/// Where META starts behind a header with a version text of that length.
pub open spec fn meta_start(version_length: nat) -> nat {
    FIXED_HEADER as nat + version_length + DIRECTORY as nat
}

/// Where STREETS starts: on the boundary after META, or right behind META
/// when there are no street bytes to align.
pub open spec fn streets_start(version_length: nat, meta: nat, streets: nat) -> nat {
    let meta_end = meta_start(version_length) + meta;
    if streets == 0 {
        meta_end
    } else {
        aligned(meta_end, STREETS_ALIGNMENT as nat)
    }
}

pub open spec fn entry_bytes(tag: u16, offset: nat, section: Seq<u8>) -> Seq<u8> {
    le_bytes(tag as nat, 2) + le_bytes(offset, 8) + le_bytes(section.len(), 8) + le_bytes(
        checksum(section) as nat,
        4,
    )
}

pub open spec fn header_bytes(
    magic: Seq<u8>,
    format: u32,
    version: Seq<u8>,
    meta: Seq<u8>,
    streets: Seq<u8>,
) -> Seq<u8> {
    magic + le_bytes(format as nat, 4) + le_bytes(version.len(), 2) + version + le_bytes(2, 4)
        + entry_bytes(SECTION_META, meta_start(version.len()), meta) + entry_bytes(
        SECTION_STREETS,
        streets_start(version.len(), meta.len(), streets.len()),
        streets,
    )
}

/// A whole container.
pub open spec fn container_bytes(
    magic: Seq<u8>,
    format: u32,
    version: Seq<u8>,
    meta: Seq<u8>,
    streets: Seq<u8>,
) -> Seq<u8> {
    let meta_end = meta_start(version.len()) + meta.len();
    header_bytes(magic, format, version, meta, streets) + meta + zeros(
        (streets_start(version.len(), meta.len(), streets.len()) - meta_end) as nat,
    ) + streets
}

pub proof fn lemma_aligned(position: nat, alignment: nat)
    requires
        alignment > 0,
    ensures
        position <= aligned(position, alignment) < position + alignment,
        aligned(position, alignment) % alignment == 0,
        position % alignment == 0 ==> aligned(position, alignment) == position,
{
    let raised = (position + alignment - 1) as nat;
    vstd::arithmetic::div_mod::lemma_fundamental_div_mod(raised as int, alignment as int);
    vstd::arithmetic::mul::lemma_mul_is_commutative(
        alignment as int,
        raised as int / alignment as int,
    );
    vstd::arithmetic::div_mod::lemma_mod_multiples_basic(
        raised as int / alignment as int,
        alignment as int,
    );
    if position % alignment == 0 {
        vstd::arithmetic::div_mod::lemma_fundamental_div_mod(position as int, alignment as int);
        let quotient = position as int / alignment as int;
        vstd::arithmetic::div_mod::lemma_fundamental_div_mod_converse(
            raised as int,
            alignment as int,
            quotient,
            alignment - 1,
        );
        vstd::arithmetic::mul::lemma_mul_is_commutative(alignment as int, quotient);
    }
}

fn push_entry(bytes: &mut Vec<u8>, tag: u16, offset: u64, section: &[u8])
    ensures
        final(bytes)@ == old(bytes)@ + entry_bytes(tag, offset as nat, section@),
{
    let ghost start = bytes@;
    push_le(bytes, tag as u64, 2);
    push_le(bytes, offset, 8);
    push_le(bytes, section.len() as u64, 8);
    push_le(bytes, crc32(section) as u64, 4);
    assert(bytes@ =~= start + entry_bytes(tag, offset as nat, section@));
}

/// Lays a container out. `magic` and `format` identify the artifact kind,
/// so a network artifact and a street artifact can never be mistaken for
/// one another.
pub fn encode_container(
    magic: &[u8; 8],
    format: u32,
    version: &[u8],
    meta: &[u8],
    streets: &[u8],
) -> (bytes: Vec<u8>)
    requires
        version@.len() <= u16::MAX,
        version@.len() + meta@.len() + streets@.len() + 0x2_0000 <= usize::MAX,
    ensures
        bytes@ == container_bytes(magic@, format, version@, meta@, streets@),
{
    let meta_offset: u64 = FIXED_HEADER + version.len() as u64 + DIRECTORY;
    let meta_end: u64 = meta_offset + meta.len() as u64;
    let streets_offset: u64 = if streets.len() == 0 {
        meta_end
    } else {
        proof {
            lemma_aligned(meta_end as nat, STREETS_ALIGNMENT as nat);
        }
        (meta_end + (STREETS_ALIGNMENT - 1)) / STREETS_ALIGNMENT * STREETS_ALIGNMENT
    };
    let mut bytes: Vec<u8> = Vec::new();
    bytes.extend_from_slice(magic.as_slice());
    push_le(&mut bytes, format as u64, 4);
    push_le(&mut bytes, version.len() as u64, 2);
    bytes.extend_from_slice(version);
    push_le(&mut bytes, 2, 4);
    push_entry(&mut bytes, SECTION_META, meta_offset, meta);
    push_entry(&mut bytes, SECTION_STREETS, streets_offset, streets);
    assert(bytes@ =~= header_bytes(magic@, format, version@, meta@, streets@));
    bytes.extend_from_slice(meta);
    let padding: usize = (streets_offset - meta_end) as usize;
    let ghost before = bytes@;
    let mut written: usize = 0;
    while written < padding
        invariant
            written <= padding,
            bytes@ == before + zeros(written as nat),
        decreases padding - written,
    {
        bytes.push(0);
        written += 1;
        assert(bytes@ =~= before + zeros(written as nat));
    }
    bytes.extend_from_slice(streets);
    assert(bytes@ =~= container_bytes(magic@, format, version@, meta@, streets@));
    bytes
}

/// The directory entry starting at `at`: tag, offset, length, checksum.
pub open spec fn entry_at(bytes: Seq<u8>, at: int) -> (nat, nat, nat, nat) {
    (
        le_value(bytes.subrange(at, at + 2)),
        le_value(bytes.subrange(at + 2, at + 10)),
        le_value(bytes.subrange(at + 10, at + 18)),
        le_value(bytes.subrange(at + 18, at + 22)),
    )
}

/// Whether two sections lie behind the directory, in order, without
/// overlap, inside a file of `total` bytes.
pub open spec fn sections_in_bounds(
    directory_end: nat,
    meta: (nat, nat, nat, nat),
    streets: (nat, nat, nat, nat),
    total: nat,
) -> bool {
    &&& directory_end <= meta.1
    &&& meta.1 + meta.2 <= streets.1
    &&& streets.1 + streets.2 <= total
}

/// What a directory comes to, once its header was accepted.
pub open spec fn directory_outcome(
    path: Seq<char>,
    bytes: Seq<u8>,
    at: int,
    total: nat,
) -> Result<ContainerLayout, Seq<char>> {
    let meta = entry_at(bytes, at);
    let streets = entry_at(bytes, at + 22);
    if meta.0 != SECTION_META || streets.0 != SECTION_STREETS {
        Err(corrupted_text(path, "section directory shape"@))
    } else if !sections_in_bounds((at + 44) as nat, meta, streets, total) {
        Err(corrupted_text(path, "section bounds"@))
    } else if streets.2 > 0 && streets.1 % STREETS_ALIGNMENT as nat != 0 {
        Err(corrupted_text(path, "street section alignment"@))
    } else {
        Ok(
            ContainerLayout {
                meta_offset: meta.1 as u64,
                meta_length: meta.2 as u64,
                meta_crc: meta.3 as u32,
                streets_offset: streets.1 as u64,
                streets_length: streets.2 as u64,
                streets_crc: streets.3 as u32,
            },
        )
    }
}

/// What the head of a file of `total` bytes comes to, read as a container of
/// the given kind and format.
pub open spec fn header_outcome(
    path: Seq<char>,
    bytes: Seq<u8>,
    total: nat,
    magic: Seq<u8>,
    expected_format: u32,
) -> Result<ContainerLayout, Seq<char>> {
    let truncated = Err(corrupted_text(path, "truncated header"@));
    let format = le_value(bytes.subrange(8, 12));
    let version_length = le_value(bytes.subrange(12, 14)) as int;
    if bytes.len() < 8 {
        truncated
    } else if bytes.subrange(0, 8) != magic {
        Err(wrong_kind_text(path, magic))
    } else if bytes.len() < 14 || bytes.len() < 14 + version_length {
        truncated
    } else if format != expected_format {
        let writer = lossy_utf8(bytes.subrange(14, 14 + version_length));
        Err(wrong_format_text(path, magic, format, writer))
    } else if bytes.len() < 18 + version_length {
        truncated
    } else if le_value(bytes.subrange(14 + version_length, 18 + version_length)) != 2 {
        Err(corrupted_text(path, "section directory shape"@))
    } else if bytes.len() < 62 + version_length {
        truncated
    } else {
        directory_outcome(path, bytes, 18 + version_length, total)
    }
}

/// `parse_header` over a whole file.
pub fn parse_container(
    path: &str,
    bytes: &[u8],
    magic: &[u8; 8],
    expected_format: u32,
) -> (layout: Result<ContainerLayout, ValueError>)
    ensures
        outcome(layout) == header_outcome(
            path@,
            bytes@,
            bytes@.len(),
            magic@,
            expected_format,
        ),
{
    parse_header(path, bytes, bytes.len() as u64, magic, expected_format)
}

fn wrong_kind(path: &str, magic: &[u8; 8]) -> (error: ValueError)
    ensures
        error.message@ == wrong_kind_text(path@, magic@),
{
    let kind = kind_name(magic);
    let pieces: [&str; 5] = ["'", path, "' is not a cafein ", kind, " artifact"];
    let text = joined(&pieces);
    assert(pieces@.map_values(|piece: &str| piece@) =~= seq![
        "'"@,
        path@,
        "' is not a cafein "@,
        kind_text(magic@),
        " artifact"@,
    ]);
    ValueError::new(text)
}

fn wrong_format(path: &str, magic: &[u8; 8], format: u32, writer: &[u8]) -> (error: ValueError)
    ensures
        error.message@ == wrong_format_text(path@, magic@, format as nat, lossy_utf8(writer@)),
{
    let kind = kind_name(magic);
    let number = decimal(format as u64);
    let written = lossy_text(writer);
    let pieces: [&str; 11] = [
        "'",
        path,
        "' uses ",
        kind,
        " artifact format ",
        number.as_str(),
        " (written by cafein ",
        written.as_str(),
        "), which this cafein (",
        version(),
        ") cannot read; rebuild the network from its inputs and save it again",
    ];
    let text = joined(&pieces);
    assert(pieces@.map_values(|piece: &str| piece@) =~= seq![
        "'"@,
        path@,
        "' uses "@,
        kind_text(magic@),
        " artifact format "@,
        decimal_text(format as nat),
        " (written by cafein "@,
        lossy_utf8(writer@),
        "), which this cafein ("@,
        version_text(),
        ") cannot read; rebuild the network from its inputs and save it again"@,
    ]);
    ValueError::new(text)
}

/// Parses and bounds-checks a container's header and section directory from
/// a head slice of a file whose full length is known separately — the light
/// path that never reads the sections. Checksums are the caller's job: the
/// load paths verify different sections.
pub fn parse_header(
    path: &str,
    bytes: &[u8],
    total: u64,
    magic: &[u8; 8],
    expected_format: u32,
) -> (layout: Result<ContainerLayout, ValueError>)
    ensures
        outcome(layout) == header_outcome(path@, bytes@, total as nat, magic@, expected_format),
{
    proof {
        lemma_le_limits();
    }
    if bytes.len() < 8 {
        return Err(corrupted(path, "truncated header"));
    }
    if !same_bytes(vstd::slice::slice_subrange(bytes, 0, 8), magic.as_slice()) {
        return Err(wrong_kind(path, magic));
    }
    if bytes.len() < 14 {
        return Err(corrupted(path, "truncated header"));
    }
    let format: u32 = read_le(bytes, 8, 4) as u32;
    let version_length: usize = read_le(bytes, 12, 2) as usize;
    if bytes.len() - 14 < version_length {
        return Err(corrupted(path, "truncated header"));
    }
    if format != expected_format {
        let writer = vstd::slice::slice_subrange(bytes, 14, 14 + version_length);
        return Err(wrong_format(path, magic, format, writer));
    }
    let behind: usize = bytes.len() - 14 - version_length;
    if behind < 4 {
        return Err(corrupted(path, "truncated header"));
    }
    let count_at: usize = 14 + version_length;
    if read_le(bytes, count_at, 4) != 2 {
        return Err(corrupted(path, "section directory shape"));
    }
    if behind < 48 {
        return Err(corrupted(path, "truncated header"));
    }
    let meta_at: usize = count_at + 4;
    let streets_at: usize = count_at + 26;
    let meta_tag: u64 = read_le(bytes, meta_at, 2);
    let meta_offset: u64 = read_le(bytes, meta_at + 2, 8);
    let meta_length: u64 = read_le(bytes, meta_at + 10, 8);
    let meta_crc: u32 = read_le(bytes, meta_at + 18, 4) as u32;
    let streets_tag: u64 = read_le(bytes, streets_at, 2);
    let streets_offset: u64 = read_le(bytes, streets_at + 2, 8);
    let streets_length: u64 = read_le(bytes, streets_at + 10, 8);
    let streets_crc: u32 = read_le(bytes, streets_at + 18, 4) as u32;
    let directory_end: u64 = (streets_at + 22) as u64;
    if meta_tag != SECTION_META as u64 || streets_tag != SECTION_STREETS as u64 {
        return Err(corrupted(path, "section directory shape"));
    }
    let meta_fits: bool = match meta_offset.checked_add(meta_length) {
        Some(end) => end <= streets_offset,
        None => false,
    };
    let streets_fit: bool = match streets_offset.checked_add(streets_length) {
        Some(end) => end <= total,
        None => false,
    };
    if meta_offset < directory_end || !meta_fits || !streets_fit {
        return Err(corrupted(path, "section bounds"));
    }
    if streets_length > 0 && streets_offset % STREETS_ALIGNMENT != 0 {
        return Err(corrupted(path, "street section alignment"));
    }
    Ok(
        ContainerLayout {
            meta_offset,
            meta_length,
            meta_crc,
            streets_offset,
            streets_length,
            streets_crc,
        },
    )
}

/// The directory of a container with these sections.
pub open spec fn written_layout(
    version_length: nat,
    meta: Seq<u8>,
    streets: Seq<u8>,
) -> ContainerLayout {
    ContainerLayout {
        meta_offset: meta_start(version_length) as u64,
        meta_length: meta.len() as u64,
        meta_crc: checksum(meta),
        streets_offset: streets_start(version_length, meta.len(), streets.len()) as u64,
        streets_length: streets.len() as u64,
        streets_crc: checksum(streets),
    }
}

proof fn lemma_entry_fields(bytes: Seq<u8>, at: int, tag: u16, offset: nat, section: Seq<u8>)
    requires
        0 <= at,
        at + 22 <= bytes.len(),
        bytes.subrange(at, at + 22) == entry_bytes(tag, offset, section),
        offset <= u64::MAX,
        section.len() <= u64::MAX,
    ensures
        entry_at(bytes, at) == (tag as nat, offset, section.len(), checksum(section) as nat),
{
    let entry = entry_bytes(tag, offset, section);
    lemma_le_bytes_len(tag as nat, 2);
    lemma_le_bytes_len(offset, 8);
    lemma_le_bytes_len(section.len(), 8);
    lemma_le_bytes_len(checksum(section) as nat, 4);
    lemma_le_limits();
    law_le_round_trip(tag as nat, 2);
    law_le_round_trip(offset, 8);
    law_le_round_trip(section.len(), 8);
    law_le_round_trip(checksum(section) as nat, 4);
    assert(bytes.subrange(at, at + 2) =~= entry.subrange(0, 2));
    assert(bytes.subrange(at + 2, at + 10) =~= entry.subrange(2, 10));
    assert(bytes.subrange(at + 10, at + 18) =~= entry.subrange(10, 18));
    assert(bytes.subrange(at + 18, at + 22) =~= entry.subrange(18, 22));
    assert(entry.subrange(0, 2) =~= le_bytes(tag as nat, 2));
    assert(entry.subrange(2, 10) =~= le_bytes(offset, 8));
    assert(entry.subrange(10, 18) =~= le_bytes(section.len(), 8));
    assert(entry.subrange(18, 22) =~= le_bytes(checksum(section) as nat, 4));
}

proof fn lemma_entry_len(tag: u16, offset: nat, section: Seq<u8>)
    ensures
        entry_bytes(tag, offset, section).len() == 22,
{
    lemma_le_bytes_len(tag as nat, 2);
    lemma_le_bytes_len(offset, 8);
    lemma_le_bytes_len(section.len(), 8);
    lemma_le_bytes_len(checksum(section) as nat, 4);
}

/// The fields of a written header, read back.
proof fn lemma_header_fields(
    magic: Seq<u8>,
    format: u32,
    version: Seq<u8>,
    meta: Seq<u8>,
    streets: Seq<u8>,
)
    requires
        magic.len() == 8,
        version.len() <= u16::MAX,
        streets_start(version.len(), meta.len(), streets.len()) <= u64::MAX,
        meta.len() <= u64::MAX,
        streets.len() <= u64::MAX,
    ensures
        ({
            let bytes = container_bytes(magic, format, version, meta, streets);
            let v = version.len() as int;
            &&& bytes.len() == streets_start(version.len(), meta.len(), streets.len())
                + streets.len()
            &&& bytes.len() >= 62 + v
            &&& bytes.subrange(0, 8) == magic
            &&& le_value(bytes.subrange(8, 12)) == format
            &&& le_value(bytes.subrange(12, 14)) == v
            &&& bytes.subrange(14, 14 + v) == version
            &&& le_value(bytes.subrange(14 + v, 18 + v)) == 2
            &&& entry_at(bytes, 18 + v) == (
                SECTION_META as nat,
                meta_start(version.len()),
                meta.len(),
                checksum(meta) as nat,
            )
            &&& entry_at(bytes, 40 + v) == (
                SECTION_STREETS as nat,
                streets_start(version.len(), meta.len(), streets.len()),
                streets.len(),
                checksum(streets) as nat,
            )
        }),
{
    let bytes = container_bytes(magic, format, version, meta, streets);
    let header = header_bytes(magic, format, version, meta, streets);
    let v = version.len() as int;
    let meta_at = meta_start(version.len());
    let streets_at = streets_start(version.len(), meta.len(), streets.len());
    lemma_aligned(meta_at + meta.len(), STREETS_ALIGNMENT as nat);
    lemma_le_limits();
    lemma_le_bytes_len(format as nat, 4);
    lemma_le_bytes_len(version.len(), 2);
    lemma_le_bytes_len(2, 4);
    law_le_round_trip(format as nat, 4);
    law_le_round_trip(version.len(), 2);
    law_le_round_trip(2, 4);
    lemma_entry_len(SECTION_META, meta_at, meta);
    lemma_entry_len(SECTION_STREETS, streets_at, streets);
    assert(header.len() == 62 + v);
    assert(bytes.subrange(0, 8) =~= magic);
    assert(bytes.subrange(8, 12) =~= le_bytes(format as nat, 4));
    assert(bytes.subrange(12, 14) =~= le_bytes(version.len(), 2));
    assert(bytes.subrange(14, 14 + v) =~= version);
    assert(bytes.subrange(14 + v, 18 + v) =~= le_bytes(2, 4));
    assert(bytes.subrange(18 + v, 40 + v) =~= entry_bytes(SECTION_META, meta_at, meta));
    assert(bytes.subrange(40 + v, 62 + v) =~= entry_bytes(SECTION_STREETS, streets_at, streets));
    lemma_entry_fields(bytes, 18 + v, SECTION_META, meta_at, meta);
    lemma_entry_fields(bytes, 40 + v, SECTION_STREETS, streets_at, streets);
}

/// A written container parses back as the kind and format it was written
/// in, its directory locates exactly the sections that went in, and the
/// recorded checksums are theirs.
pub proof fn law_container_round_trip(
    path: Seq<char>,
    magic: Seq<u8>,
    format: u32,
    version: Seq<u8>,
    meta: Seq<u8>,
    streets: Seq<u8>,
)
    requires
        magic.len() == 8,
        version.len() <= u16::MAX,
        container_bytes(magic, format, version, meta, streets).len() <= u64::MAX,
    ensures
        ({
            let bytes = container_bytes(magic, format, version, meta, streets);
            let layout = written_layout(version.len(), meta, streets);
            &&& header_outcome(path, bytes, bytes.len(), magic, format) == Ok::<
                ContainerLayout,
                Seq<char>,
            >(layout)
            &&& bytes.subrange(
                layout.meta_offset as int,
                layout.meta_offset + layout.meta_length,
            ) == meta
            &&& bytes.subrange(
                layout.streets_offset as int,
                layout.streets_offset + layout.streets_length,
            ) == streets
            &&& layout.meta_crc == checksum(meta)
            &&& layout.streets_crc == checksum(streets)
        }),
{
    let bytes = container_bytes(magic, format, version, meta, streets);
    let meta_at = meta_start(version.len());
    let streets_at = streets_start(version.len(), meta.len(), streets.len());
    lemma_aligned(meta_at + meta.len(), STREETS_ALIGNMENT as nat);
    lemma_le_bytes_len(format as nat, 4);
    lemma_le_bytes_len(version.len(), 2);
    lemma_le_bytes_len(2, 4);
    lemma_entry_len(SECTION_META, meta_at, meta);
    lemma_entry_len(SECTION_STREETS, streets_at, streets);
    assert(bytes.len() == streets_at + streets.len());
    lemma_header_fields(magic, format, version, meta, streets);
    assert(bytes.subrange(meta_at as int, (meta_at + meta.len()) as int) =~= meta);
    assert(bytes.subrange(streets_at as int, (streets_at + streets.len()) as int) =~= streets);
}

/// Read as any other kind, a container is refused as not being one of that
/// kind, whatever else it holds.
pub proof fn law_other_kind_is_refused(
    path: Seq<char>,
    bytes: Seq<u8>,
    total: nat,
    magic: Seq<u8>,
    expected_format: u32,
)
    requires
        bytes.len() >= 8,
        bytes.subrange(0, 8) != magic,
    ensures
        header_outcome(path, bytes, total, magic, expected_format) == Err::<
            ContainerLayout,
            Seq<char>,
        >(wrong_kind_text(path, magic)),
{
}

/// The two artifact kinds have different magics.
pub proof fn law_kinds_are_distinct()
    ensures
        ARTIFACT_MAGIC@ != STREET_ARTIFACT_MAGIC@,
{
    assert(ARTIFACT_MAGIC@[6] != STREET_ARTIFACT_MAGIC@[6]);
}

/// Read in another format version, a written container is refused with the
/// version text of the release that wrote it.
pub proof fn law_other_format_is_refused(
    path: Seq<char>,
    magic: Seq<u8>,
    format: u32,
    version: Seq<u8>,
    meta: Seq<u8>,
    streets: Seq<u8>,
    expected_format: u32,
)
    requires
        magic.len() == 8,
        version.len() <= u16::MAX,
        container_bytes(magic, format, version, meta, streets).len() <= u64::MAX,
        format != expected_format,
    ensures
        header_outcome(
            path,
            container_bytes(magic, format, version, meta, streets),
            container_bytes(magic, format, version, meta, streets).len(),
            magic,
            expected_format,
        ) == Err::<ContainerLayout, Seq<char>>(
            wrong_format_text(path, magic, format as nat, lossy_utf8(version)),
        ),
{
    let meta_at = meta_start(version.len());
    let streets_at = streets_start(version.len(), meta.len(), streets.len());
    lemma_aligned(meta_at + meta.len(), STREETS_ALIGNMENT as nat);
    lemma_le_bytes_len(format as nat, 4);
    lemma_le_bytes_len(version.len(), 2);
    lemma_le_bytes_len(2, 4);
    lemma_entry_len(SECTION_META, meta_at, meta);
    lemma_entry_len(SECTION_STREETS, streets_at, streets);
    lemma_header_fields(magic, format, version, meta, streets);
}

/// The directory depends on the header bytes alone: any head of a file that
/// reaches past the directory parses as the whole file does.
pub proof fn law_head_parses_as_whole(
    path: Seq<char>,
    bytes: Seq<u8>,
    head: int,
    total: nat,
    magic: Seq<u8>,
    expected_format: u32,
)
    requires
        14 <= head <= bytes.len(),
        head >= 62 + le_value(bytes.subrange(12, 14)),
    ensures
        header_outcome(path, bytes.subrange(0, head), total, magic, expected_format)
            == header_outcome(path, bytes, total, magic, expected_format),
{
    let part = bytes.subrange(0, head);
    let v = le_value(bytes.subrange(12, 14)) as int;
    assert(part.subrange(0, 8) =~= bytes.subrange(0, 8));
    assert(part.subrange(8, 12) =~= bytes.subrange(8, 12));
    assert(part.subrange(12, 14) =~= bytes.subrange(12, 14));
    assert(part.subrange(14, 14 + v) =~= bytes.subrange(14, 14 + v));
    assert(part.subrange(14 + v, 18 + v) =~= bytes.subrange(14 + v, 18 + v));
    lemma_same_entry(bytes, head, 18 + v);
    lemma_same_entry(bytes, head, 40 + v);
}

proof fn lemma_same_entry(bytes: Seq<u8>, head: int, at: int)
    requires
        0 <= at,
        at + 22 <= head <= bytes.len(),
    ensures
        entry_at(bytes.subrange(0, head), at) == entry_at(bytes, at),
{
    let part = bytes.subrange(0, head);
    assert(part.subrange(at, at + 2) =~= bytes.subrange(at, at + 2));
    assert(part.subrange(at + 2, at + 10) =~= bytes.subrange(at + 2, at + 10));
    assert(part.subrange(at + 10, at + 18) =~= bytes.subrange(at + 10, at + 18));
    assert(part.subrange(at + 18, at + 22) =~= bytes.subrange(at + 18, at + 22));
}

/// An accepted directory locates both sections inside the file, META first.
pub proof fn law_accepted_sections_lie_in_the_file(
    path: Seq<char>,
    bytes: Seq<u8>,
    total: nat,
    magic: Seq<u8>,
    expected_format: u32,
)
    requires
        total <= u64::MAX,
    ensures
        header_outcome(path, bytes, total, magic, expected_format) matches Ok(layout) ==> {
            &&& layout.meta_offset + layout.meta_length <= layout.streets_offset
            &&& layout.streets_offset + layout.streets_length <= total
            &&& layout.streets_length > 0 ==> layout.streets_offset % STREETS_ALIGNMENT == 0
        },
{
}

/// A container stands in the file byte by byte: the magic, the format in four
/// bytes, the length of the version in two, the version, the number two in
/// four, then the META and STREETS entries of tag, offset, length and checksum,
/// and META right behind them. Street bytes start on the next boundary of
/// sixty-four kilobytes, behind nothing but zeros.
pub proof fn law_containers_stand_byte_by_byte(
    magic: Seq<u8>,
    format: u32,
    version: Seq<u8>,
    meta: Seq<u8>,
    streets: Seq<u8>,
    at: int,
)
    requires
        magic.len() == 8,
        version.len() <= u16::MAX,
        container_bytes(magic, format, version, meta, streets).len() <= u64::MAX,
    ensures
        ({
            let bytes = container_bytes(magic, format, version, meta, streets);
            let v = version.len() as int;
            let meta_end = 62 + v + meta.len();
            let streets_at = bytes.len() - streets.len();
            &&& bytes.subrange(0, 8) == magic
            &&& le_value(bytes.subrange(8, 12)) == format
            &&& le_value(bytes.subrange(12, 14)) == v
            &&& bytes.subrange(14, 14 + v) == version
            &&& le_value(bytes.subrange(14 + v, 18 + v)) == 2
            &&& le_value(bytes.subrange(18 + v, 20 + v)) == 1
            &&& le_value(bytes.subrange(20 + v, 28 + v)) == 62 + v
            &&& le_value(bytes.subrange(28 + v, 36 + v)) == meta.len()
            &&& le_value(bytes.subrange(36 + v, 40 + v)) == checksum(meta)
            &&& le_value(bytes.subrange(40 + v, 42 + v)) == 2
            &&& le_value(bytes.subrange(42 + v, 50 + v)) == streets_at
            &&& le_value(bytes.subrange(50 + v, 58 + v)) == streets.len()
            &&& le_value(bytes.subrange(58 + v, 62 + v)) == checksum(streets)
            &&& bytes.subrange(62 + v, meta_end) == meta
            &&& bytes.subrange(streets_at, bytes.len() as int) == streets
            &&& meta_end <= streets_at < meta_end + 65_536
            &&& streets.len() > 0 ==> streets_at % 65_536 == 0
            &&& streets.len() == 0 ==> streets_at == meta_end
            &&& meta_end <= at < streets_at ==> bytes[at] == 0
        }),
{
    let bytes = container_bytes(magic, format, version, meta, streets);
    let v = version.len() as int;
    let meta_at = meta_start(version.len());
    let streets_at = streets_start(version.len(), meta.len(), streets.len());
    lemma_aligned(meta_at + meta.len(), STREETS_ALIGNMENT as nat);
    lemma_le_bytes_len(format as nat, 4);
    lemma_le_bytes_len(version.len(), 2);
    lemma_le_bytes_len(2, 4);
    lemma_entry_len(SECTION_META, meta_at, meta);
    lemma_entry_len(SECTION_STREETS, streets_at, streets);
    assert(bytes.len() == streets_at + streets.len());
    lemma_header_fields(magic, format, version, meta, streets);
    assert(entry_at(bytes, 18 + v).0 == 1);
    assert(entry_at(bytes, 40 + v).0 == 2);
    assert(20 + v == 18 + v + 2 && 28 + v == 18 + v + 10 && 36 + v == 18 + v + 18);
    assert(bytes.subrange(62 + v, 62 + v + meta.len()) =~= meta);
    assert(bytes.subrange(streets_at as int, bytes.len() as int) =~= streets);
}

/// A header is accepted exactly where it has the kind and format expected, a
/// directory of the two sections, and the sections in order within the file,
/// street bytes on their boundary; its layout is then what the directory says.
pub proof fn law_headers_are_read_at_fixed_places(
    path: Seq<char>,
    bytes: Seq<u8>,
    total: nat,
    magic: Seq<u8>,
    expected_format: u32,
)
    requires
        total <= u64::MAX,
        bytes.len() >= 14,
    ensures
        ({
            let v = le_value(bytes.subrange(12, 14)) as int;
            let outcome = header_outcome(path, bytes, total, magic, expected_format);
            let meta_at = le_value(bytes.subrange(20 + v, 28 + v));
            let meta_length = le_value(bytes.subrange(28 + v, 36 + v));
            let streets_at = le_value(bytes.subrange(42 + v, 50 + v));
            let streets_length = le_value(bytes.subrange(50 + v, 58 + v));
            &&& outcome is Ok <==> bytes.subrange(0, 8) == magic && le_value(
                bytes.subrange(8, 12),
            ) == expected_format && bytes.len() >= 62 + v && le_value(
                bytes.subrange(14 + v, 18 + v),
            ) == 2 && le_value(bytes.subrange(18 + v, 20 + v)) == 1 && le_value(
                bytes.subrange(40 + v, 42 + v),
            ) == 2 && 62 + v <= meta_at && meta_at + meta_length <= streets_at && streets_at
                + streets_length <= total && (streets_length > 0 ==> streets_at % 65_536 == 0)
            &&& outcome matches Ok(layout) ==> {
                &&& layout.meta_offset == meta_at
                &&& layout.meta_length == meta_length
                &&& layout.meta_crc == le_value(bytes.subrange(36 + v, 40 + v))
                &&& layout.streets_offset == streets_at
                &&& layout.streets_length == streets_length
                &&& layout.streets_crc == le_value(bytes.subrange(58 + v, 62 + v))
            }
        }),
{
    let v = le_value(bytes.subrange(12, 14)) as int;
    if bytes.len() >= 62 + v {
        lemma_le_limits();
        lemma_le_value_bound(bytes.subrange(36 + v, 40 + v));
        lemma_le_value_bound(bytes.subrange(58 + v, 62 + v));
        let meta = entry_at(bytes, 18 + v);
        let streets = entry_at(bytes, 40 + v);
        assert(meta.0 == le_value(bytes.subrange(18 + v, 20 + v)));
        assert(meta.1 == le_value(bytes.subrange(20 + v, 28 + v)));
        assert(meta.2 == le_value(bytes.subrange(28 + v, 36 + v)));
        assert(meta.3 == le_value(bytes.subrange(36 + v, 40 + v)));
        assert(streets.0 == le_value(bytes.subrange(40 + v, 42 + v)));
        assert(streets.1 == le_value(bytes.subrange(42 + v, 50 + v)));
        assert(streets.2 == le_value(bytes.subrange(50 + v, 58 + v)));
        assert(streets.3 == le_value(bytes.subrange(58 + v, 62 + v)));
    }
}

} // verus!
