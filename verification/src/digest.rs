//! Artifact identities: SHA-256 over a saved file, or over the content a
//! save would write.

use crate::bytes::{le_bytes, lemma_le_bytes_len, push_le};
use crate::container::{
    header_outcome, parse_header, ContainerLayout, ARTIFACT_FORMAT, ARTIFACT_MAGIC,
    STREET_ARTIFACT_FORMAT, STREET_ARTIFACT_MAGIC,
};
use crate::crc::{absorb, checksum, law_absorb_concat, Crc32};
use crate::text::{hex, hex_text};
use sha2::Digest;
use vstd::prelude::*;
use vstd::slice::slice_subrange;

verus! {

/// The SHA-256 digest of a byte string.
pub uninterp spec fn sha256_of(bytes: Seq<u8>) -> Seq<u8>;

/// `sha2::Sha256` over two byte strings fed one after the other: the digest
/// of their concatenation, 32 bytes long.
#[verifier::external_body]
fn sha256(first: &[u8], second: &[u8]) -> (digest: Vec<u8>)
    ensures
        digest@ == sha256_of(first@ + second@),
        digest@.len() == 32,
{
    sha2::Sha256::new_with_prefix(first).chain_update(second).finalize().to_vec()
}

/// The digest of two byte strings fed one after the other, in lowercase
/// hexadecimal.
pub fn hex_digest(first: &[u8], second: &[u8]) -> (text: String)
    ensures
        text@ == hex_text(sha256_of(first@ + second@)),
        text@.len() == 64,
{
    hex(sha256(first, second).as_slice())
}

/// The marker between META and the STREETS section of a content digest.
pub open spec fn streets_marker() -> Seq<u8> {
    seq![0x00u8, 0x53, 0x54, 0x52, 0x45, 0x45, 0x54, 0x53]
}

/// What a content digest is taken over: the artifact kind and format, the
/// META payload, and the STREETS section with its length.
pub open spec fn content_image(
    magic: Seq<u8>,
    format: u32,
    meta: Seq<u8>,
    streets: Seq<u8>,
) -> Seq<u8> {
    magic + le_bytes(format as nat, 4) + meta + streets_marker() + le_bytes(streets.len(), 8)
        + streets
}

/// The identity of the content a save would write, without writing it.
pub fn content_digest(magic: &[u8; 8], format: u32, meta: &[u8], streets: &[u8]) -> (text: String)
    ensures
        text@ == hex_text(sha256_of(content_image(magic@, format, meta@, streets@))),
{
    let mut image: Vec<u8> = Vec::new();
    image.extend_from_slice(magic.as_slice());
    push_le(&mut image, format as u64, 4);
    image.extend_from_slice(meta);
    let marker: [u8; 8] = [0x00, 0x53, 0x54, 0x52, 0x45, 0x45, 0x54, 0x53];
    image.extend_from_slice(marker.as_slice());
    push_le(&mut image, streets.len() as u64, 8);
    assert(marker@ =~= streets_marker());
    assert(image@ + streets@ =~= content_image(magic@, format, meta@, streets@));
    hex_digest(image.as_slice(), streets)
}

/// Two contents of one artifact kind and format have the same digest input
/// exactly when their sections are the same, as long as their META payloads
/// have one length: the section length is part of the input.
pub proof fn law_content_image_is_faithful(
    magic: Seq<u8>,
    format: u32,
    meta: Seq<u8>,
    streets: Seq<u8>,
    other_meta: Seq<u8>,
    other_streets: Seq<u8>,
)
    requires
        meta.len() == other_meta.len(),
        content_image(magic, format, meta, streets) == content_image(
            magic,
            format,
            other_meta,
            other_streets,
        ),
    ensures
        meta == other_meta,
        streets == other_streets,
{
    let left = content_image(magic, format, meta, streets);
    let right = content_image(magic, format, other_meta, other_streets);
    lemma_le_bytes_len(format as nat, 4);
    lemma_le_bytes_len(streets.len(), 8);
    lemma_le_bytes_len(other_streets.len(), 8);
    let head = magic.len() + 4;
    let body = head + meta.len() + 16;
    assert(left.len() == body + streets.len());
    assert(right.len() == body + other_streets.len());
    assert(meta =~= left.subrange(head as int, (head + meta.len()) as int));
    assert(other_meta =~= right.subrange(head as int, (head + meta.len()) as int));
    assert(streets =~= left.subrange(body as int, left.len() as int));
    assert(other_streets =~= right.subrange(body as int, right.len() as int));
}

/// The part of a byte range that lies inside the first `limit` bytes.
pub open spec fn clamped(position: int, limit: int) -> int {
    if position < limit {
        position
    } else {
        limit
    }
}

/// The bytes of a section within what was read of a file.
pub open spec fn section_of(seen: Seq<u8>, offset: nat, length: nat) -> Seq<u8> {
    seen.subrange(
        clamped(offset as int, seen.len() as int),
        clamped((offset + length) as int, seen.len() as int),
    )
}

/// The checksums of a container's sections, taken while the file streams by
/// in chunks of any size.
pub struct SectionSums {
    layout: ContainerLayout,
    meta: Crc32,
    streets: Crc32,
    position: u64,
    seen: Ghost<Seq<u8>>,
}

impl SectionSums {
    pub closed spec fn layout(&self) -> ContainerLayout {
        self.layout
    }

    /// The bytes fed so far, from the file's start on.
    pub closed spec fn seen(&self) -> Seq<u8> {
        self.seen@
    }

    pub closed spec fn wf(&self) -> bool {
        let layout = self.layout;
        &&& self.position == self.seen@.len()
        &&& layout.meta_offset + layout.meta_length <= u64::MAX
        &&& layout.streets_offset + layout.streets_length <= u64::MAX
        &&& self.meta.register() == absorb(
            u32::MAX,
            section_of(self.seen@, layout.meta_offset as nat, layout.meta_length as nat),
        )
        &&& self.streets.register() == absorb(
            u32::MAX,
            section_of(self.seen@, layout.streets_offset as nat, layout.streets_length as nat),
        )
    }

    pub fn new(layout: ContainerLayout) -> (sums: SectionSums)
        requires
            layout.meta_offset + layout.meta_length <= u64::MAX,
            layout.streets_offset + layout.streets_length <= u64::MAX,
        ensures
            sums.wf(),
            sums.layout() == layout,
            sums.seen() == Seq::<u8>::empty(),
    {
        proof {
            let none = Seq::<u8>::empty();
            assert(section_of(none, layout.meta_offset as nat, layout.meta_length as nat) =~= none);
            assert(section_of(none, layout.streets_offset as nat, layout.streets_length as nat)
                =~= none);
        }
        SectionSums {
            layout,
            meta: Crc32::new(),
            streets: Crc32::new(),
            position: 0,
            seen: Ghost(Seq::empty()),
        }
    }

    /// Feeds the next bytes of the file.
    pub fn feed(&mut self, bytes: &[u8])
        requires
            old(self).wf(),
            old(self).seen().len() + bytes@.len() <= u64::MAX,
        ensures
            final(self).wf(),
            final(self).seen() == old(self).seen() + bytes@,
            final(self).layout() == old(self).layout(),
    {
        let position: u64 = self.position;
        let layout: ContainerLayout = self.layout;
        let ghost seen = self.seen@;
        feed_range(
            &mut self.meta,
            layout.meta_offset,
            layout.meta_length,
            position,
            bytes,
            Ghost(seen),
        );
        feed_range(
            &mut self.streets,
            layout.streets_offset,
            layout.streets_length,
            position,
            bytes,
            Ghost(seen),
        );
        self.position = position + bytes.len() as u64;
        self.seen = Ghost(seen + bytes@);
    }

    /// Whether both sections of what was fed have these checksums.
    pub fn matches(&self, meta_crc: u32, streets_crc: u32) -> (same: bool)
        requires
            self.wf(),
        ensures
            same == sections_match(self.seen(), self.layout(), meta_crc, streets_crc),
    {
        self.meta.finish() == meta_crc && self.streets.finish() == streets_crc
    }
}

/// Whether the sections of a file have these checksums.
pub open spec fn sections_match(
    file: Seq<u8>,
    layout: ContainerLayout,
    meta_crc: u32,
    streets_crc: u32,
) -> bool {
    &&& checksum(section_of(file, layout.meta_offset as nat, layout.meta_length as nat)) == meta_crc
    &&& checksum(section_of(file, layout.streets_offset as nat, layout.streets_length as nat))
        == streets_crc
}

fn feed_range(
    state: &mut Crc32,
    offset: u64,
    length: u64,
    position: u64,
    bytes: &[u8],
    Ghost(seen): Ghost<Seq<u8>>,
)
    requires
        position == seen.len(),
        seen.len() + bytes@.len() <= u64::MAX,
        offset + length <= u64::MAX,
        old(state).register() == absorb(u32::MAX, section_of(seen, offset as nat, length as nat)),
    ensures
        final(state).register() == absorb(
            u32::MAX,
            section_of(seen + bytes@, offset as nat, length as nat),
        ),
{
    let limit: u64 = position + bytes.len() as u64;
    let range_end: u64 = offset + length;
    let start: u64 = if offset < position {
        position
    } else if offset > limit {
        limit
    } else {
        offset
    };
    let end: u64 = if range_end < position {
        position
    } else if range_end > limit {
        limit
    } else {
        range_end
    };
    let ghost before = section_of(seen, offset as nat, length as nat);
    let ghost after = section_of(seen + bytes@, offset as nat, length as nat);
    if start < end {
        let part = slice_subrange(bytes, (start - position) as usize, (end - position) as usize);
        state.update(part);
        proof {
            law_absorb_concat(u32::MAX, before, part@);
            assert(after =~= before + part@);
        }
    } else {
        assert(after =~= before);
    }
}

/// How much of a file's start the header is parsed from.
pub const HEAD_LENGTH: usize = 4096;

pub open spec fn head_of(file: Seq<u8>) -> Seq<u8> {
    if file.len() < HEAD_LENGTH {
        file
    } else {
        file.subrange(0, HEAD_LENGTH as int)
    }
}

/// The layout of a file of `total` bytes that is an artifact of either kind.
pub open spec fn artifact_layout(path: Seq<char>, head: Seq<u8>, total: nat) -> Option<
    ContainerLayout,
> {
    match header_outcome(path, head, total, ARTIFACT_MAGIC@, ARTIFACT_FORMAT) {
        Ok(layout) => Some(layout),
        Err(_) => match header_outcome(
            path,
            head,
            total,
            STREET_ARTIFACT_MAGIC@,
            STREET_ARTIFACT_FORMAT,
        ) {
            Ok(layout) => Some(layout),
            Err(_) => None,
        },
    }
}

/// What a file digest is taken over.
pub open spec fn file_image(file: Seq<u8>) -> Seq<u8> {
    seq![0x46u8, 0x49, 0x4C, 0x45, 0x00] + file
}

/// The identity of a loaded artifact's file, bound to the checksums its
/// header had at load time: a file replaced since then has none.
pub open spec fn file_identity(
    path: Seq<char>,
    file: Seq<u8>,
    meta_crc: u32,
    streets_crc: u32,
) -> Option<Seq<char>> {
    match artifact_layout(path, head_of(file), file.len()) {
        Some(layout) => if layout.meta_crc == meta_crc && layout.streets_crc == streets_crc
            && sections_match(file, layout, meta_crc, streets_crc) {
            Some(hex_text(sha256_of(file_image(file))))
        } else {
            None
        },
        None => None,
    }
}

/// Parses a header out of the head of a file, as either artifact kind.
pub fn either_layout(path: &str, head: &[u8], total: u64) -> (layout: Option<ContainerLayout>)
    ensures
        layout == artifact_layout(path@, head@, total as nat),
        layout matches Some(layout) ==> layout.meta_offset + layout.meta_length <= u64::MAX
            && layout.streets_offset + layout.streets_length <= u64::MAX,
{
    let network: [u8; 8] = ARTIFACT_MAGIC;
    let street: [u8; 8] = STREET_ARTIFACT_MAGIC;
    match parse_header(path, head, total, &network, ARTIFACT_FORMAT) {
        Ok(layout) => Some(layout),
        Err(_) => match parse_header(path, head, total, &street, STREET_ARTIFACT_FORMAT) {
            Ok(layout) => Some(layout),
            Err(_) => None,
        },
    }
}

/// Whether a file's sections have the checksums its identity is bound to.
fn sections_hold(
    file: &[u8],
    cut: usize,
    layout: ContainerLayout,
    meta_crc: u32,
    streets_crc: u32,
) -> (hold: bool)
    requires
        cut <= file@.len(),
        layout.meta_offset + layout.meta_length <= u64::MAX,
        layout.streets_offset + layout.streets_length <= u64::MAX,
    ensures
        hold == sections_match(file@, layout, meta_crc, streets_crc),
{
    let mut sums = SectionSums::new(layout);
    let head = slice_subrange(file, 0, cut);
    let rest = slice_subrange(file, cut, file.len());
    sums.feed(head);
    sums.feed(rest);
    assert(sums.seen() =~= file@);
    sums.matches(meta_crc, streets_crc)
}

/// The loaded artifact file's SHA-256, bound to the header checksums
/// recorded at load time; `None` sends the caller to the content digest.
pub fn file_digest(path: &str, file: &[u8], meta_crc: u32, streets_crc: u32) -> (digest: Option<
    String,
>)
    ensures
        match digest {
            Some(text) => file_identity(path@, file@, meta_crc, streets_crc) == Some(text@),
            None => file_identity(path@, file@, meta_crc, streets_crc) is None,
        },
{
    let cut: usize = if file.len() < HEAD_LENGTH {
        file.len()
    } else {
        HEAD_LENGTH
    };
    let head = slice_subrange(file, 0, cut);
    assert(head@ =~= head_of(file@));
    let layout = match either_layout(path, head, file.len() as u64) {
        Some(layout) => layout,
        None => {
            return None;
        },
    };
    if layout.meta_crc != meta_crc || layout.streets_crc != streets_crc {
        return None;
    }
    if !sections_hold(file, cut, layout, meta_crc, streets_crc) {
        return None;
    }
    let tag: [u8; 5] = [0x46, 0x49, 0x4C, 0x45, 0x00];
    assert(tag@ + file@ =~= file_image(file@));
    Some(hex_digest(tag.as_slice(), file))
}

/// The file that an artifact was loaded from, with the checksums its header
/// had then.
#[derive(Debug, Clone)]
pub struct Source {
    pub path: String,
    pub meta_crc: u32,
    pub streets_crc: u32,
}

/// The identity of the file an artifact was loaded from, where that file
/// still reads and holds what was loaded. What was built in memory, or has
/// changed since it was loaded, has no source and no such identity.
pub open spec fn loaded_identity(source: Option<Source>, file: Option<Seq<u8>>) -> Option<
    Seq<char>,
> {
    match (source, file) {
        (Some(source), Some(file)) => file_identity(
            source.path@,
            file,
            source.meta_crc,
            source.streets_crc,
        ),
        _ => None,
    }
}

/// What a checksum over saved content comes to: the sections' digest, or the
/// failure to encode them.
pub open spec fn content_outcome<E>(
    content: Result<(Vec<u8>, Vec<u8>), E>,
    magic: Seq<u8>,
    format: u32,
) -> Result<Seq<char>, E> {
    match content {
        Ok((meta, streets)) => Ok(
            hex_text(sha256_of(content_image(magic, format, meta@, streets@))),
        ),
        Err(error) => Err(error),
    }
}

/// An artifact's checksum. One loaded from a file has the file's digest, as
/// long as the file holds what was loaded; one built in memory, or changed
/// since it was loaded, has the digest of the META and STREETS sections that
/// `content` encodes, and only then are they encoded. `file` is what the
/// source's path reads, where it does.
pub fn artifact_checksum<E, F: FnOnce() -> Result<(Vec<u8>, Vec<u8>), E>>(
    source: &Option<Source>,
    file: Option<&[u8]>,
    magic: &[u8; 8],
    format: u32,
    content: F,
) -> (checksum: Result<String, E>)
    requires
        loaded_identity(*source, file_view(file)) is None ==> call_requires(content, ()),
    ensures
        match loaded_identity(*source, file_view(file)) {
            Some(text) => checksum matches Ok(checksum) && checksum@ == text,
            None => exists|sections: Result<(Vec<u8>, Vec<u8>), E>| #[trigger]
                call_ensures(content, (), sections) && content_outcome(sections, magic@, format)
                    == match checksum {
                    Ok(checksum) => Ok(checksum@),
                    Err(error) => Err(error),
                },
        },
{
    if let (Some(source), Some(file)) = (source, file) {
        if let Some(digest) = file_digest(
            source.path.as_str(),
            file,
            source.meta_crc,
            source.streets_crc,
        ) {
            return Ok(digest);
        }
    }
    let sections: Result<(Vec<u8>, Vec<u8>), E> = content();
    assert(call_ensures(content, (), sections));
    match sections {
        Ok((meta, streets)) => Ok(
            content_digest(magic, format, meta.as_slice(), streets.as_slice()),
        ),
        Err(error) => Err(error),
    }
}

pub open spec fn file_view(file: Option<&[u8]>) -> Option<Seq<u8>> {
    match file {
        Some(file) => Some(file@),
        None => None,
    }
}

/// The checksums a file's header records, as the binding its identity is
/// remembered by.
pub fn read_source(
    path: &str,
    head: &[u8],
    total: u64,
    magic: &[u8; 8],
    format: u32,
) -> (source: Option<(u32, u32)>)
    ensures
        source == match header_outcome(path@, head@, total as nat, magic@, format) {
            Ok(layout) => Some((layout.meta_crc, layout.streets_crc)),
            Err(_) => None,
        },
{
    match parse_header(path, head, total, magic, format) {
        Ok(layout) => Some((layout.meta_crc, layout.streets_crc)),
        Err(_) => None,
    }
}

/// A section of a file is its own bytes, as far as the file reaches.
pub proof fn law_sections_are_their_bytes(seen: Seq<u8>, offset: nat, length: nat, at: int)
    ensures
        offset + length <= seen.len() ==> section_of(seen, offset, length).len() == length,
        offset >= seen.len() ==> section_of(seen, offset, length).len() == 0,
        offset <= seen.len() < offset + length ==> section_of(seen, offset, length).len()
            == seen.len() - offset,
        0 <= at < section_of(seen, offset, length).len() ==> section_of(seen, offset, length)[at]
            == seen[offset + at],
{
}

/// What a content digest is taken over starts with the kind and the format,
/// then has META, the marker, the length of the streets and the streets.
pub proof fn law_content_images_stand_in_order(
    magic: Seq<u8>,
    format: u32,
    meta: Seq<u8>,
    streets: Seq<u8>,
)
    requires
        magic.len() == 8,
    ensures
        ({
            let image = content_image(magic, format, meta, streets);
            let end = 12 + meta.len() as int;
            &&& image.len() == 28 + meta.len() + streets.len()
            &&& image.subrange(0, 8) == magic
            &&& image.subrange(8, 12) == le_bytes(format as nat, 4)
            &&& image.subrange(12, end) == meta
            &&& image[end] == 0x00 && image[end + 1] == 0x53 && image[end + 7] == 0x53
            &&& image.subrange(end + 8, end + 16) == le_bytes(streets.len(), 8)
            &&& image.subrange(end + 16, image.len() as int) == streets
        }),
{
    let image = content_image(magic, format, meta, streets);
    let end = 12 + meta.len() as int;
    lemma_le_bytes_len(format as nat, 4);
    lemma_le_bytes_len(streets.len(), 8);
    assert(image.subrange(0, 8) =~= magic);
    assert(image.subrange(8, 12) =~= le_bytes(format as nat, 4));
    assert(image.subrange(12, end) =~= meta);
    assert(image.subrange(end + 8, end + 16) =~= le_bytes(streets.len(), 8));
    assert(image.subrange(end + 16, image.len() as int) =~= streets);
}

/// The head of a file is its first four kilobytes, or all of a shorter one.
pub proof fn law_heads_start_the_file(file: Seq<u8>, at: int)
    ensures
        head_of(file).len() <= 4096,
        head_of(file).len() == file.len() || head_of(file).len() == 4096,
        0 <= at < head_of(file).len() ==> head_of(file)[at] == file[at],
{
}

/// A file is identified only where it is an artifact whose header has the
/// checksums that were loaded and whose sections still have them; its identity
/// is then the digest of the whole file under the file tag.
pub proof fn law_identified_files_hold_what_was_loaded(
    path: Seq<char>,
    file: Seq<u8>,
    meta_crc: u32,
    streets_crc: u32,
)
    ensures
        file_identity(path, file, meta_crc, streets_crc) is Some <==> (artifact_layout(
            path,
            head_of(file),
            file.len(),
        ) matches Some(layout) && layout.meta_crc == meta_crc && layout.streets_crc == streets_crc
            && checksum(section_of(file, layout.meta_offset as nat, layout.meta_length as nat))
            == meta_crc && checksum(
            section_of(file, layout.streets_offset as nat, layout.streets_length as nat),
        ) == streets_crc),
        file_identity(path, file, meta_crc, streets_crc) matches Some(text) ==> text == hex_text(
            sha256_of(file_image(file)),
        ),
        file_image(file).len() == file.len() + 5,
        file_image(file).skip(5) == file,
{
    assert(file_image(file).skip(5) =~= file);
}

/// A loaded artifact is identified by its file only where it has a source and
/// the file reads.
pub proof fn law_only_sources_are_identified(source: Source, file: Seq<u8>)
    ensures
        loaded_identity(None, Some(file)) is None,
        loaded_identity(Some(source), None) is None,
        loaded_identity(Some(source), Some(file)) == file_identity(
            source.path@,
            file,
            source.meta_crc,
            source.streets_crc,
        ),
{
}

/// An artifact's layout is read under its own kind and that kind's format.
pub proof fn law_artifacts_are_of_either_kind(path: Seq<char>, head: Seq<u8>, total: nat)
    ensures
        artifact_layout(path, head, total) is Some <==> header_outcome(
            path,
            head,
            total,
            ARTIFACT_MAGIC@,
            20,
        ) is Ok || header_outcome(path, head, total, STREET_ARTIFACT_MAGIC@, 4) is Ok,
        header_outcome(path, head, total, ARTIFACT_MAGIC@, 20) matches Ok(layout)
            ==> artifact_layout(path, head, total) == Some(layout),
{
}

/// A checksum over content is the digest of its image, and fails only where
/// encoding does, with that failure.
pub proof fn law_content_checksums_are_digests<E>(
    meta: Vec<u8>,
    streets: Vec<u8>,
    error: E,
    magic: Seq<u8>,
    format: u32,
)
    ensures
        content_outcome::<E>(Ok((meta, streets)), magic, format) == Ok::<Seq<char>, E>(
            hex_text(sha256_of(content_image(magic, format, meta@, streets@))),
        ),
        content_outcome::<E>(Err(error), magic, format) == Err::<Seq<char>, E>(error),
{
}

} // verus!
