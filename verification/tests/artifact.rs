use cafein::container::{
    corrupted, encode_container, parse_container, parse_header, same_bytes, version,
    ARTIFACT_FORMAT, ARTIFACT_MAGIC, STREETS_ALIGNMENT, STREET_ARTIFACT_FORMAT,
    STREET_ARTIFACT_MAGIC,
};
use cafein::crc::{crc32, Crc32};
use cafein::digest::{
    artifact_checksum, content_digest, either_layout, file_digest, hex_digest, read_source,
    SectionSums, Source,
};
use cafein::load::{
    after_failed_mapping, check_elevation_arguments, check_elevation_meta, check_loaded_elevation,
    check_street_section, load_block_mapped, load_block_owned, mapped_verifies,
    mapping_unavailable, open_container, owned_verifies, parse_mmap_mode, streets_bytes_read,
    validate_walking_hierarchy, GraphFacts, HierarchyFacts, MmapMode,
};
use cafein::street_arrays::{
    encode_streets, ArrayDescriptor, ArrayKind, CarAttributes, StoredLink, StreetArray, StreetAttributes,
    StreetNetworkParts,
};
use cafein::street_decode::{decode_optional_street_arrays, decode_streets};
use cafein::street_shape::{
    check_block_boundary, encode_street_sections, expected_level_starts, multimodal_block_start,
    validate_street_shape, ElevationMeta, StreetsMeta,
};

const ADVICE: &str = "; rebuild the network from its inputs and save it again";

fn bits(value: f64) -> u64 {
    value.to_bits()
}

/// One edge between two vertices, drawn straight.
fn parts() -> StreetNetworkParts {
    StreetNetworkParts {
        vertex_count: 2,
        adjacency_offsets: vec![0, 1, 2],
        adj_targets: vec![1, 0],
        adj_meters: vec![bits(10.0), bits(10.0)],
        adj_edges: vec![0, 0],
        endpoints: vec![0, 1],
        lengths: vec![bits(10.0)],
        coordinate_offsets: vec![0, 2],
        lons: vec![-5, 7],
        lats: vec![1, 2],
        cumulative: vec![0, 10.0f32.to_bits()],
        index_boxes: vec![-5, 1, 7, 2],
        index_payload: vec![0, 0],
        index_level_starts: vec![0, 1],
        links: vec![StoredLink {
            stop: 0,
            edge: 0,
            fraction: bits(0.5),
            connector: bits(3.0),
            from: 0,
            to: 1,
        }],
        attributes: None,
        car: None,
        elevations: None,
    }
}

fn attributed() -> StreetNetworkParts {
    let mut all = parts();
    all.attributes = Some(StreetAttributes {
        adj_access: vec![7, 7],
        adj_facility: vec![0, 1],
        edge_highway: vec![4],
        edge_surface: vec![5],
        edge_smoothness: vec![6],
        edge_flags: vec![0x0102],
    });
    all.car = Some(CarAttributes {
        adj_car_speed: vec![50.0f32.to_bits(), 30.0f32.to_bits()],
        adj_junction: vec![1, 2],
    });
    all.elevations = Some(vec![1.5f32.to_bits(), 2.5f32.to_bits()]);
    all
}

fn meta_of(parts: &StreetNetworkParts) -> (StreetsMeta, Vec<u8>) {
    let (descriptors, section) = encode_streets(parts);
    let meta = StreetsMeta {
        vertex_count: parts.vertex_count,
        links: parts.links.clone(),
        descriptors,
        elevation: None,
    };
    (meta, section)
}

#[test]
fn crc_of_the_reference_string() {
    assert_eq!(crc32(b"123456789"), 0xCBF4_3926);
    assert_eq!(crc32(b""), 0);
}

#[test]
fn crc_absorbs_pieces_as_their_whole() {
    let mut sum = Crc32::new();
    sum.update(b"1234");
    sum.update(b"");
    sum.update(b"56789");
    assert_eq!(sum.finish(), 0xCBF4_3926);
}

#[test]
fn crc_catches_a_damaged_byte() {
    let sound = b"street section".to_vec();
    for position in 0..sound.len() {
        let mut damaged = sound.clone();
        damaged[position] ^= 0x40;
        assert_ne!(crc32(&damaged), crc32(&sound));
    }
}

#[test]
fn containers_give_back_their_sections() {
    let bytes = encode_container(&ARTIFACT_MAGIC, ARTIFACT_FORMAT, b"1.0", b"meta", b"streets!");
    let layout = parse_container("n", &bytes, &ARTIFACT_MAGIC, ARTIFACT_FORMAT).unwrap();
    let meta = layout.meta_offset as usize..(layout.meta_offset + layout.meta_length) as usize;
    let streets =
        layout.streets_offset as usize..(layout.streets_offset + layout.streets_length) as usize;
    assert_eq!(&bytes[meta], b"meta");
    assert_eq!(&bytes[streets], b"streets!");
    assert_eq!(layout.streets_offset % STREETS_ALIGNMENT, 0);
    assert_eq!(layout.meta_crc, crc32(b"meta"));
    assert_eq!(layout.streets_crc, crc32(b"streets!"));
    // Magic, then the little-endian format.
    assert_eq!(&bytes[..8], &ARTIFACT_MAGIC);
    assert_eq!(&bytes[8..12], &ARTIFACT_FORMAT.to_le_bytes());
}

#[test]
fn other_kinds_and_formats_are_refused() {
    let bytes = encode_container(&STREET_ARTIFACT_MAGIC, 3, b"0.9\xFF", b"m", b"s");
    let kind = parse_container("p", &bytes, &ARTIFACT_MAGIC, ARTIFACT_FORMAT).unwrap_err();
    assert_eq!(kind.message, "'p' is not a cafein network artifact");
    let format =
        parse_container("p", &bytes, &STREET_ARTIFACT_MAGIC, STREET_ARTIFACT_FORMAT).unwrap_err();
    // The invalid byte of the writer's version is replaced.
    let expected = format!(
        "'p' uses street artifact format 3 (written by cafein 0.9\u{FFFD}), which this cafein \
         ({}) cannot read{}",
        version(),
        ADVICE
    );
    assert_eq!(format.message, expected);
}

#[test]
fn truncated_headers_are_corrupted() {
    let bytes = encode_container(&ARTIFACT_MAGIC, ARTIFACT_FORMAT, b"1", b"meta", b"s");
    let error = parse_container("p", &bytes[..40], &ARTIFACT_MAGIC, ARTIFACT_FORMAT).unwrap_err();
    assert!(error.message.starts_with("'p' is corrupted ("));
    assert!(error.message.ends_with("save it again"));
    // A head is enough where the total length is known.
    let whole = parse_container("p", &bytes, &ARTIFACT_MAGIC, ARTIFACT_FORMAT).unwrap();
    let head =
        parse_header("p", &bytes[..4096], bytes.len() as u64, &ARTIFACT_MAGIC, ARTIFACT_FORMAT);
    assert_eq!(head.unwrap(), whole);
}

#[test]
fn corrupted_names_the_file_and_the_fault() {
    let expected = format!("'a.bin' is corrupted (checksum mismatch){}", ADVICE);
    assert_eq!(corrupted("a.bin", "checksum mismatch").message, expected);
    assert!(same_bytes(b"ab", b"ab"));
    assert!(!same_bytes(b"ab", b"abc"));
}

#[test]
fn digests_are_sha_256_in_hexadecimal() {
    assert_eq!(
        hex_digest(b"abc", b""),
        "ba7816bf8f01cfea414140de5dae2223b00361a396177a9cb410ff61f20015ad"
    );
    assert_eq!(hex_digest(b"a", b"bc"), hex_digest(b"abc", b""));
    assert_eq!(
        hex_digest(b"", b""),
        "e3b0c44298fc1c149afbf4c8996fb92427ae41e4649b934ca495991b7852b855"
    );
}

#[test]
fn content_digests_frame_the_sections() {
    let mut image: Vec<u8> = Vec::new();
    image.extend_from_slice(&ARTIFACT_MAGIC);
    image.extend_from_slice(&ARTIFACT_FORMAT.to_le_bytes());
    image.extend_from_slice(b"meta");
    image.extend_from_slice(b"\0STREETS");
    image.extend_from_slice(&3u64.to_le_bytes());
    image.extend_from_slice(b"abc");
    assert_eq!(
        content_digest(&ARTIFACT_MAGIC, ARTIFACT_FORMAT, b"meta", b"abc"),
        hex_digest(&image, b"")
    );
    assert_ne!(
        content_digest(&ARTIFACT_MAGIC, ARTIFACT_FORMAT, b"meta", b"abc"),
        content_digest(&ARTIFACT_MAGIC, ARTIFACT_FORMAT, b"metaa", b"bc")
    );
}

#[test]
fn file_digests_need_the_sections_that_were_loaded() {
    let bytes = encode_container(&ARTIFACT_MAGIC, ARTIFACT_FORMAT, b"1", b"meta", b"abc");
    let layout = either_layout("p", &bytes, bytes.len() as u64).unwrap();
    let held = file_digest("p", &bytes, layout.meta_crc, layout.streets_crc);
    assert!(held.is_some());
    assert!(file_digest("p", &bytes, layout.meta_crc ^ 1, layout.streets_crc).is_none());
    let mut damaged = bytes.clone();
    let last = damaged.len() - 1;
    damaged[last] ^= 1;
    assert!(file_digest("p", &damaged, layout.meta_crc, layout.streets_crc).is_none());
    assert!(file_digest("p", b"short", 0, 0).is_none());
    let source = read_source("p", &bytes, bytes.len() as u64, &ARTIFACT_MAGIC, ARTIFACT_FORMAT);
    assert_eq!(source, Some((layout.meta_crc, layout.streets_crc)));
    let other = read_source("p", &bytes, bytes.len() as u64, &STREET_ARTIFACT_MAGIC, 4);
    assert_eq!(other, None);
}

#[test]
fn section_sums_follow_the_file_in_pieces() {
    let bytes = encode_container(&ARTIFACT_MAGIC, ARTIFACT_FORMAT, b"1", b"meta", b"abc");
    let layout = either_layout("p", &bytes, bytes.len() as u64).unwrap();
    let mut sums = SectionSums::new(layout);
    for piece in bytes.chunks(1000) {
        sums.feed(piece);
    }
    assert!(sums.matches(crc32(b"meta"), crc32(b"abc")));
    assert!(!sums.matches(crc32(b"meta"), crc32(b"abd")));
}

#[test]
fn level_starts_shape_the_packed_index() {
    assert_eq!(expected_level_starts(0), vec![0, 0]);
    assert_eq!(expected_level_starts(1), vec![0, 1]);
    assert_eq!(expected_level_starts(2), vec![0, 2, 3]);
    assert_eq!(expected_level_starts(16), vec![0, 16, 17]);
    assert_eq!(expected_level_starts(17), vec![0, 17, 19, 20]);
}

#[test]
fn encoded_streets_lie_aligned_in_order() {
    let (descriptors, section) = encode_streets(&attributed());
    assert_eq!(descriptors.len(), 22);
    assert_eq!(descriptors[0].array, StreetArray::AdjacencyOffsets);
    assert_eq!(descriptors[0].kind, ArrayKind::U32);
    assert_eq!((descriptors[0].count, descriptors[0].offset), (3, 0));
    // Twelve bytes of offsets, padded to the next multiple of eight.
    assert_eq!((descriptors[1].count, descriptors[1].offset), (2, 16));
    for descriptor in &descriptors {
        assert_eq!(descriptor.offset % 8, 0);
    }
    assert_eq!(&section[4..8], &1u32.to_le_bytes());
    let (core, _) = encode_streets(&parts());
    assert_eq!(core.len(), 13);
    assert_eq!(ArrayKind::U16.size(), 2);
    assert_eq!(ArrayKind::F64.size(), 8);
}

#[test]
fn streets_round_trip() {
    let all = attributed();
    let (meta, section) = meta_of(&all);
    let (levels, end) = validate_street_shape("p", &meta, 0, section.len() as u64, 1).unwrap();
    assert_eq!(end, section.len() as u64);
    let back = decode_streets("p", meta, &section, levels).unwrap();
    assert_eq!(back.adj_meters, all.adj_meters);
    assert_eq!(back.lons, all.lons);
    assert_eq!(back.index_boxes, all.index_boxes);
    assert_eq!(back.links, all.links);
    assert_eq!(back.attributes.unwrap().edge_flags, vec![0x0102]);
    assert_eq!(back.car.unwrap().adj_junction, vec![1, 2]);
    assert_eq!(back.elevations, all.elevations);
}

fn shape_fault(meta: &StreetsMeta, length: u64, stops: u32) -> String {
    validate_street_shape("p", meta, 0, length, stops).unwrap_err().message
}

fn corrupted_text(what: &str) -> String {
    format!("'p' is corrupted ({}){}", what, ADVICE)
}

#[test]
fn broken_street_tables_are_named() {
    let (mut meta, section) = meta_of(&parts());
    let length = section.len() as u64;
    meta.descriptors.swap(0, 1);
    assert_eq!(shape_fault(&meta, length, 1), corrupted_text("street descriptor table shape"));
    meta.descriptors.swap(0, 1);
    assert_eq!(shape_fault(&meta, length - 1, 1), corrupted_text("street array bounds"));
    meta.descriptors[1].offset += 8;
    assert_eq!(shape_fault(&meta, length, 1), corrupted_text("street array bounds"));
    meta.descriptors[1].offset -= 8;
    meta.vertex_count = 3;
    assert_eq!(shape_fault(&meta, length, 1), corrupted_text("street array consistency"));
    meta.vertex_count = 2;
    // The link's stop is not among the stops.
    assert_eq!(shape_fault(&meta, length, 0), corrupted_text("street link records"));
    let (mut meta, section) = meta_of(&attributed());
    meta.descriptors.pop();
    let end = section.len() as u64;
    assert_eq!(shape_fault(&meta, end, 1), corrupted_text("street car group"));
    let (mut meta, _) = meta_of(&attributed());
    meta.descriptors.truncate(14);
    assert_eq!(shape_fault(&meta, end, 1), corrupted_text("street attribute group"));
}

fn decode_fault(parts: &StreetNetworkParts) -> String {
    let (meta, section) = meta_of(parts);
    let (levels, _) = validate_street_shape("p", &meta, 0, section.len() as u64, 1).unwrap();
    match decode_streets("p", meta, &section, levels) {
        Ok(_) => String::new(),
        Err(error) => error.message,
    }
}

#[test]
fn broken_street_interiors_are_named() {
    let mut broken = parts();
    broken.adjacency_offsets = vec![0, 2, 1];
    assert_eq!(decode_fault(&broken), corrupted_text("street adjacency offsets"));
    let mut broken = parts();
    broken.coordinate_offsets = vec![1, 2];
    assert_eq!(decode_fault(&broken), corrupted_text("street coordinate offsets"));
    let mut broken = parts();
    broken.adj_targets = vec![9, 0];
    assert_eq!(decode_fault(&broken), corrupted_text("street graph references"));
    let mut broken = parts();
    broken.adj_meters = vec![bits(10.0), bits(11.0)];
    assert_eq!(decode_fault(&broken), corrupted_text("street adjacency rows"));
    let mut broken = parts();
    broken.cumulative = vec![0, (-1.0f32).to_bits()];
    assert_eq!(decode_fault(&broken), corrupted_text("street costs"));
    let mut broken = parts();
    broken.index_level_starts = vec![0, 2];
    assert_eq!(decode_fault(&broken), corrupted_text("street index shape"));
    let mut broken = parts();
    broken.index_payload = vec![0, 1];
    assert_eq!(decode_fault(&broken), corrupted_text("street index payloads"));
    let mut broken = parts();
    broken.links[0].from = 1;
    assert_eq!(decode_fault(&broken), corrupted_text("street link records"));
    assert_eq!(decode_fault(&parts()), "");
}

#[test]
fn blocks_load_owned_and_mapped() {
    let (meta, section) = meta_of(&attributed());
    let block = load_block_mapped("p", &meta, 0, 65_536, &section, 1, None, false).unwrap();
    assert_eq!(block.ranges[0], (65_536, 3));
    assert_eq!(block.ranges.len(), 22);
    // Only the optional arrays are read: access, facility, the three edge
    // classes, the flags, the elevations, the speeds and the junctions.
    assert_eq!(block.bytes_read, 2 + 2 + 1 + 1 + 1 + 2 + 8 + 8 + 2);
    let verified = load_block_mapped("p", &meta, 0, 65_536, &section, 1, None, true).unwrap();
    // A checksum pass has read the whole section already.
    assert_eq!(verified.bytes_read, 0);
    let owned = load_block_owned("p", meta, 0, &section, 1, None).unwrap();
    assert_eq!(owned.lengths, vec![bits(10.0)]);
}

#[test]
fn mapped_loads_count_what_they_read() {
    assert_eq!(streets_bytes_read(true, 4096, 27, 5), 4096);
    assert_eq!(streets_bytes_read(false, 4096, 27, 5), 32);
    assert_eq!(streets_bytes_read(false, 4096, 0, 0), 0);
}

#[test]
fn optional_arrays_are_found_by_identity() {
    let at = |array, kind, count, offset| ArrayDescriptor { array, kind, count, offset };
    let mut section: Vec<u8> = (0..24).collect();
    // Out of their usual order, and without the core arrays before them.
    let mut table = vec![
        at(StreetArray::AdjJunction, ArrayKind::U8, 2, 20),
        at(StreetArray::CoordinateElevations, ArrayKind::F32, 1, 4),
        at(StreetArray::AdjCarSpeed, ArrayKind::F32, 2, 8),
        at(StreetArray::EdgeFlags, ArrayKind::U16, 2, 0),
        at(StreetArray::EdgeSmoothness, ArrayKind::U8, 1, 3),
        at(StreetArray::EdgeSurface, ArrayKind::U8, 1, 2),
        at(StreetArray::EdgeHighway, ArrayKind::U8, 1, 1),
        at(StreetArray::AdjFacility, ArrayKind::U8, 0, 9),
        at(StreetArray::AdjAccess, ArrayKind::U8, 3, 16),
    ];
    let (attributes, car, elevations) = decode_optional_street_arrays(&section, &table);
    let attributes = attributes.unwrap();
    assert_eq!(attributes.adj_access, vec![16, 17, 18]);
    assert_eq!(attributes.adj_facility, Vec::<u8>::new());
    assert_eq!(attributes.edge_highway, vec![1]);
    assert_eq!(attributes.edge_surface, vec![2]);
    assert_eq!(attributes.edge_smoothness, vec![3]);
    assert_eq!(attributes.edge_flags, vec![0x0100, 0x0302]);
    let car = car.unwrap();
    assert_eq!(car.adj_car_speed, vec![0x0b0a_0908, 0x0f0e_0d0c]);
    assert_eq!(car.adj_junction, vec![20, 21]);
    assert_eq!(elevations, Some(vec![0x0706_0504]));
    // Bytes outside the arrays do not matter, and a group that misses one
    // of its arrays is absent.
    section[23] = 99;
    section[19] = 98;
    table.remove(8);
    table.remove(2);
    let (attributes, car, elevations) = decode_optional_street_arrays(&section, &table);
    assert!(attributes.is_none() && car.is_none());
    assert_eq!(elevations, Some(vec![0x0706_0504]));
    let (attributes, car, elevations) = decode_optional_street_arrays(&section, &[]);
    assert!(attributes.is_none() && car.is_none() && elevations.is_none());
}

#[test]
fn two_graphs_share_one_section() {
    let elevation = ElevationMeta {
        source: "dem".to_string(),
        sampling_interval: bits(10.0),
        nodata_policy: "fill".to_string(),
        coverage: bits(1.0),
        inferred_edges: 0,
    };
    let mut unlinked = attributed();
    unlinked.links.clear();
    let (walking, multimodal, section) =
        encode_street_sections(&Some(parts()), &Some(unlinked), Some(elevation));
    let walking = walking.unwrap();
    let multimodal = multimodal.unwrap();
    let start = multimodal_block_start(&multimodal);
    assert_eq!(start % 8, 0);
    assert_eq!(multimodal.elevation.as_ref().unwrap().source, "dem");
    let (_, end) = validate_street_shape("p", &walking, 0, section.len() as u64, 1).unwrap();
    assert!(check_block_boundary("p", end, Some(start), section.len() as u64).is_ok());
    assert!(check_block_boundary("p", end, None, section.len() as u64).is_err());
    let first = load_block_owned("p", walking, 0, &section, 1, Some(start)).unwrap();
    assert_eq!(first.vertex_count, 2);
    let second = load_block_owned("p", multimodal, start, &section, 0, None).unwrap();
    assert!(second.attributes.is_some());
}

#[test]
fn mapping_modes_decide_the_fallback() {
    assert_eq!(parse_mmap_mode("auto").unwrap(), MmapMode::Auto);
    assert_eq!(
        parse_mmap_mode("maybe").unwrap_err().message,
        "mmap must be 'off', 'auto', or 'require', not 'maybe'"
    );
    assert!(after_failed_mapping("p", MmapMode::Auto, "no map").is_ok());
    assert_eq!(
        after_failed_mapping("p", MmapMode::Require, "no map").unwrap_err().message,
        "'p' cannot be memory-mapped (no map) and mmap='require' forbids the owned fallback"
    );
    assert_eq!(mapping_unavailable(false, None), None);
    assert_eq!(mapping_unavailable(false, Some("0")), None);
    assert_eq!(mapping_unavailable(false, Some("")), None);
    assert_eq!(mapping_unavailable(false, Some("1")), Some("disabled by CAFEIN_DISABLE_MMAP"));
    assert_eq!(
        mapping_unavailable(true, None),
        Some("mapped street arrays need a little-endian host")
    );
    assert!(owned_verifies(None) && !owned_verifies(Some(false)));
    assert!(!mapped_verifies(None) && mapped_verifies(Some(true)));
}

#[test]
fn opening_verifies_what_was_asked() {
    let mut bytes = encode_container(&ARTIFACT_MAGIC, ARTIFACT_FORMAT, b"1", b"meta", b"abc");
    assert!(open_container("p", &bytes, &ARTIFACT_MAGIC, ARTIFACT_FORMAT, true).is_ok());
    let last = bytes.len() - 1;
    bytes[last] ^= 1;
    assert!(open_container("p", &bytes, &ARTIFACT_MAGIC, ARTIFACT_FORMAT, false).is_ok());
    let error = open_container("p", &bytes, &ARTIFACT_MAGIC, ARTIFACT_FORMAT, true).unwrap_err();
    assert_eq!(error.message, corrupted_text("checksum mismatch"));
}

#[test]
fn sections_and_elevations_go_together() {
    assert!(check_street_section("p", true, 8).is_ok());
    assert!(check_street_section("p", false, 0).is_ok());
    assert!(check_street_section("p", true, 0).is_err());
    assert!(check_elevation_arguments(true, true).is_ok());
    assert_eq!(
        check_elevation_arguments(true, false).unwrap_err().message,
        "coordinate_elevations and elevation_metadata go together: pass both or neither"
    );
    let mut meta = ElevationMeta {
        source: String::new(),
        sampling_interval: bits(1.0),
        nodata_policy: String::new(),
        coverage: bits(0.5),
        inferred_edges: 2,
    };
    assert!(check_elevation_meta(&meta, 2).is_ok());
    assert_eq!(
        check_elevation_meta(&meta, 1).unwrap_err().message,
        "elevation inferred_edges exceeds the edge count"
    );
    meta.coverage = bits(1.5);
    assert_eq!(
        check_elevation_meta(&meta, 2).unwrap_err().message,
        "elevation coverage must be a share within 0..=1"
    );
    meta.sampling_interval = bits(0.0);
    assert_eq!(
        check_elevation_meta(&meta, 2).unwrap_err().message,
        "elevation sampling_interval must be positive and finite"
    );
    let error = check_loaded_elevation("p", true, &None, 2, "elevation metadata").unwrap_err();
    assert_eq!(error.message, corrupted_text("elevation metadata"));
    assert!(check_loaded_elevation("p", false, &None, 2, "elevation metadata").is_ok());
}

#[test]
fn hierarchies_belong_to_their_graph() {
    let graph = GraphFacts { vertex_count: 2, fingerprint: Some(9) };
    let sound = HierarchyFacts { vertex_count: 2, consistent: true, fingerprint: Some(9) };
    assert!(validate_walking_hierarchy("p", None, None, true).is_ok());
    assert!(validate_walking_hierarchy("p", Some(sound), Some(graph), true).is_ok());
    let other = HierarchyFacts { vertex_count: 3, ..sound };
    assert!(validate_walking_hierarchy("p", Some(other), Some(graph), true).is_err());
    let broken = HierarchyFacts { consistent: false, ..sound };
    assert!(validate_walking_hierarchy("p", Some(broken), Some(graph), true).is_err());
    assert!(validate_walking_hierarchy("p", Some(sound), None, true).is_err());
}

#[test]
fn checksums_name_the_file_or_the_content() {
    let file = encode_container(&ARTIFACT_MAGIC, ARTIFACT_FORMAT, b"1", b"meta", b"abc");
    let layout = either_layout("p", &file, file.len() as u64).unwrap();
    let source = Some(Source {
        path: "p".to_string(),
        meta_crc: layout.meta_crc,
        streets_crc: layout.streets_crc,
    });
    let sum = |source: &Option<Source>, file: Option<&[u8]>| {
        let mut encoded = false;
        let content = || {
            encoded = true;
            Ok::<(Vec<u8>, Vec<u8>), String>((b"meta".to_vec(), b"abc".to_vec()))
        };
        let text = artifact_checksum(source, file, &ARTIFACT_MAGIC, ARTIFACT_FORMAT, content);
        (text.unwrap(), encoded)
    };
    let loaded = file_digest("p", &file, layout.meta_crc, layout.streets_crc).unwrap();
    let held = content_digest(&ARTIFACT_MAGIC, ARTIFACT_FORMAT, b"meta", b"abc");
    // Loaded and unchanged: the file, and nothing is encoded.
    assert_eq!(sum(&source, Some(&file)), (loaded, false));
    // Built in memory or changed, a file that is gone, a file replaced.
    assert_eq!(sum(&None, Some(&file)), (held.clone(), true));
    assert_eq!(sum(&source, None), (held.clone(), true));
    let mut damaged = file.clone();
    let last = damaged.len() - 1;
    damaged[last] ^= 1;
    assert_eq!(sum(&source, Some(&damaged)), (held, true));
    let fails = || Err::<(Vec<u8>, Vec<u8>), String>("no memory".to_string());
    let failed = artifact_checksum(&None, None, &ARTIFACT_MAGIC, ARTIFACT_FORMAT, fails);
    assert_eq!(failed, Err("no memory".to_string()));
}
