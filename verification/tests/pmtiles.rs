//! Archives: tile numbers, directories, headers, and whole archives in memory.
use flate2::read::GzDecoder;
use flate2::write::GzEncoder;
use flate2::Compression;
use std::io::{Read, Write};
use tilefeed::mvt::is_gzipped;
use tilefeed::pmtiles::{
    build_directories, build_metadata, check_paths, check_sample, deserialize_directory,
    export_report, flip_y, hilbert_to_xy, parse_bounds, parse_center, path_clash, plan_export,
    read_directory, read_varint, sample_tile_ids, serialize_directory, split_commas, staging_path,
    store_tile, tile_id, tile_id_to_zxy, write_varint, ArchiveBuilder, ArchiveError, ArchiveReader,
    BuildError, Compressed, DirectoryError, Entry, ExportError, ExportStats, Header, HeaderError,
    PathClash, Placement, TileIdError, TileLookup, TileType, VarintError, HEADER_LEN,
    MAX_ROOT_DIR_LEN,
};

fn e7(degrees: f64) -> i32 {
    (degrees * 10_000_000.0).round() as i32
}

fn degrees(position: i32) -> f64 {
    position as f64 / 10_000_000.0
}

fn positions(raw: Option<&str>) -> Vec<i32> {
    match raw {
        None => Vec::new(),
        Some(raw) => split_commas(raw)
            .iter()
            .filter_map(|p| p.trim().parse::<f64>().ok())
            .map(e7)
            .collect(),
    }
}

fn center_zoom(raw: Option<&str>) -> Option<u8> {
    split_commas(raw?).get(2)?.trim().parse::<f64>().ok().map(|z| z as u8)
}

fn gzip(data: &[u8]) -> Vec<u8> {
    let mut encoder = GzEncoder::new(Vec::new(), Compression::default());
    encoder.write_all(data).unwrap();
    encoder.finish().unwrap()
}

fn ungzip(data: &[u8]) -> Vec<u8> {
    let mut out = Vec::new();
    GzDecoder::new(data).read_to_end(&mut out).unwrap();
    out
}

fn place(min_zoom: u8, max_zoom: u8) -> Placement {
    Placement {
        min_zoom,
        max_zoom,
        bounds: (e7(-1.0), e7(50.0), e7(1.0), e7(52.0)),
        center_zoom: 3,
        center: (0, e7(51.0)),
    }
}

/// Export tiles, given with rows from the north, the way a store is exported.
fn export(tiles: &[(u8, u32, u32, Vec<u8>)], metadata: &[(String, String)]) -> (Vec<u8>, ExportStats) {
    let coords: Vec<(u8, u32, u32)> =
        tiles.iter().map(|(z, x, y, _)| (*z, *x, (1u32 << z) - 1 - y)).collect();
    let plan = plan_export(&coords).unwrap();
    let mut builder = ArchiveBuilder::new();
    let mut data = Vec::new();
    for planned in &plan.tiles {
        let y = (1u32 << planned.z) - 1 - planned.tms_y;
        let tile = tiles.iter().find(|t| (t.0, t.1, t.2) == (planned.z, planned.x, y)).unwrap();
        let blob = store_tile(tile.3.clone()).unwrap();
        assert!(builder.can_add(planned.id, blob.len()));
        if let Some(staged) = builder.add_tile(planned.id, blob) {
            data.extend(staged);
        }
    }
    let text = build_metadata(&metadata.to_vec()).unwrap();
    let head = builder.finish(&text, &place(plan.min_zoom, plan.max_zoom)).unwrap();
    assert_eq!(builder.data_length(), data.len() as u64);
    let stats = head.stats(0);
    let mut bytes = head.bytes;
    bytes.extend(data);
    assert_eq!(stats.bytes_written, bytes.len() as u64);
    (bytes, stats)
}

fn open(bytes: &[u8]) -> ArchiveReader {
    ArchiveReader::open(&bytes[..HEADER_LEN.min(bytes.len())], bytes.len() as u64).unwrap()
}

fn fixture() -> Vec<(u8, u32, u32, Vec<u8>)> {
    vec![
        (0, 0, 0, b"tile-zero".to_vec()),
        (1, 0, 0, b"tile-a".to_vec()),
        (1, 1, 0, b"tile-b".to_vec()),
        // Same bytes as 1/0/0: must be stored once
        (1, 1, 1, b"tile-a".to_vec()),
        (2, 1, 1, b"tile-c".to_vec()),
    ]
}

fn fixture_metadata() -> Vec<(String, String)> {
    vec![
        ("name".to_string(), "fixture".to_string()),
        ("json".to_string(), r#"{"vector_layers":[{"id":"parks"}]}"#.to_string()),
    ]
}

#[test]
fn test_tile_id_matches_the_spec_examples() {
    // The first tiles in order, and one far along the curve
    assert_eq!(tile_id(0, 0, 0), 0);
    assert_eq!(tile_id(1, 0, 0), 1);
    assert_eq!(tile_id(1, 0, 1), 2);
    assert_eq!(tile_id(1, 1, 1), 3);
    assert_eq!(tile_id(1, 1, 0), 4);
    assert_eq!(tile_id(2, 0, 0), 5);
    assert_eq!(tile_id(12, 3423, 1763), 19078479);
}

#[test]
fn test_tile_id_round_trips() {
    for z in 0u8..=10 {
        let n = 1u32 << z;
        for (x, y) in [
            (0, 0),
            (n - 1, 0),
            (0, n - 1),
            (n - 1, n - 1),
            (n / 2, n / 3),
        ] {
            let id = tile_id(z, x, y);
            assert_eq!(
                tile_id_to_zxy(id).unwrap(),
                (z, x, y),
                "round trip failed for {}/{}/{}",
                z,
                x,
                y
            );
        }
    }
}

#[test]
fn test_tile_ids_are_unique_and_contiguous_within_a_zoom() {
    // Every tile at z=4 must map to a distinct id, and the ids must exactly
    // fill the range reserved for that zoom.
    let mut ids: Vec<u64> = Vec::new();
    for x in 0..16 {
        for y in 0..16 {
            ids.push(tile_id(4, x, y));
        }
    }
    ids.sort_unstable();
    ids.dedup();
    assert_eq!(ids.len(), 256);
    assert_eq!(*ids.first().unwrap(), tile_id(4, 0, 0));
    assert_eq!(*ids.last().unwrap(), tile_id(4, 0, 0) + 255);
}

#[test]
fn test_zoom_ranges_are_adjacent_with_no_gap_or_overlap() {
    // Ask tile_id itself: the highest id at one zoom must be exactly one
    // below the lowest at the next, or ids from different zooms collide.
    for z in 0u8..12 {
        let side = 1u32 << z;
        let highest = (0..side)
            .flat_map(|x| (0..side).map(move |y| (x, y)))
            .map(|(x, y)| tile_id(z, x, y))
            .max()
            .unwrap();
        assert_eq!(
            highest + 1,
            tile_id(z + 1, 0, 0),
            "zoom {} and {} are not adjacent",
            z,
            z + 1
        );
    }
}

#[test]
fn test_varint_round_trip() {
    for value in [0u64, 1, 127, 128, 300, 16384, u32::MAX as u64, u64::MAX] {
        let mut buf = Vec::new();
        write_varint(&mut buf, value);
        let mut pos = 0;
        assert_eq!(read_varint(&buf, &mut pos).unwrap(), value);
        assert_eq!(pos, buf.len(), "varint for {} had trailing bytes", value);
    }
}

#[test]
fn test_varint_encoding_is_leb128() {
    let mut buf = Vec::new();
    write_varint(&mut buf, 300);
    assert_eq!(buf, vec![0xAC, 0x02]);
}

#[test]
fn test_truncated_varint_errors() {
    let mut pos = 0;
    assert!(read_varint(&[0x80], &mut pos).is_err());
}

fn sample_entries() -> Vec<Entry> {
    vec![
        Entry {
            tile_id: 0,
            offset: 0,
            length: 10,
            run_length: 1,
        },
        // Contiguous: encodes its offset as 0
        Entry {
            tile_id: 1,
            offset: 10,
            length: 20,
            run_length: 3,
        },
        // Deduplicated: points back at the first blob
        Entry {
            tile_id: 9,
            offset: 0,
            length: 10,
            run_length: 1,
        },
    ]
}

#[test]
fn test_directory_round_trip() {
    let entries = sample_entries();
    let bytes = serialize_directory(&entries);
    assert_eq!(deserialize_directory(&bytes).unwrap(), entries);
}

#[test]
fn test_directory_uses_the_contiguous_offset_shorthand() {
    let entries = sample_entries();
    let bytes = serialize_directory(&entries);

    // Walk to the offsets column and check the middle entry encoded as 0
    let mut pos = 0;
    let count = read_varint(&bytes, &mut pos).unwrap() as usize;
    for _ in 0..count * 3 {
        read_varint(&bytes, &mut pos).unwrap();
    }
    assert_eq!(read_varint(&bytes, &mut pos).unwrap(), 1); // offset 0 -> 0+1
    assert_eq!(read_varint(&bytes, &mut pos).unwrap(), 0); // contiguous
    assert_eq!(read_varint(&bytes, &mut pos).unwrap(), 1); // back-reference
}

#[test]
fn test_empty_directory_round_trips() {
    let bytes = serialize_directory(&[]);
    assert_eq!(deserialize_directory(&bytes).unwrap(), Vec::<Entry>::new());
}

#[test]
fn test_directory_rejects_implausible_count() {
    let mut bytes = Vec::new();
    write_varint(&mut bytes, u64::MAX);
    assert!(deserialize_directory(&bytes).is_err());
}

fn sample_header() -> Header {
    Header {
        root_offset: 127,
        root_length: 50,
        metadata_offset: 177,
        metadata_length: 30,
        leaf_offset: 207,
        leaf_length: 0,
        data_offset: 207,
        data_length: 900,
        addressed_tiles: 12,
        tile_entries: 10,
        tile_contents: 8,
        clustered: true,
        internal_compression: Compressed::Gzip,
        tile_compression: Compressed::Gzip,
        tile_type: TileType::Mvt,
        min_zoom: 0,
        max_zoom: 14,
        bounds: (e7(-0.1425), e7(51.5007), e7(-0.0745), e7(51.5142)),
        center_zoom: 14,
        center: (e7(-0.076904), e7(51.501904)),
    }
}

#[test]
fn test_header_is_127_bytes_with_the_right_magic() {
    let bytes = sample_header().to_bytes();
    assert_eq!(bytes.len(), 127);
    assert_eq!(&bytes[0..7], b"PMTiles");
    assert_eq!(bytes[7], 3);
}

#[test]
fn test_header_round_trip() {
    let header = sample_header();
    let parsed = Header::from_bytes(&header.to_bytes()).unwrap();

    assert_eq!(parsed.root_offset, header.root_offset);
    assert_eq!(parsed.data_length, header.data_length);
    assert_eq!(parsed.addressed_tiles, header.addressed_tiles);
    assert_eq!(parsed.tile_entries, header.tile_entries);
    assert_eq!(parsed.tile_contents, header.tile_contents);
    assert!(parsed.clustered);
    assert_eq!(parsed.min_zoom, 0);
    assert_eq!(parsed.max_zoom, 14);
    // Positions survive to 1e-7 degrees, the format's resolution
    assert!((degrees(parsed.bounds.0) - -0.1425).abs() < 1e-7);
    assert!((degrees(parsed.bounds.3) - 51.5142).abs() < 1e-7);
    assert!((degrees(parsed.center.1) - 51.501904).abs() < 1e-7);
}

#[test]
fn test_header_fields_land_on_the_spec_offsets() {
    let bytes = sample_header().to_bytes();
    // Root directory offset is bytes 8..16, little-endian
    assert_eq!(&bytes[8..16], &127u64.to_le_bytes());
    // Clustered flag, compressions and tile type
    assert_eq!(bytes[96], 0x01);
    assert_eq!(bytes[97], 0x02);
    assert_eq!(bytes[98], 0x02);
    assert_eq!(bytes[99], 0x01);
    // min/max zoom
    assert_eq!(bytes[100], 0);
    assert_eq!(bytes[101], 14);
}

#[test]
fn test_header_rejects_bad_magic() {
    let mut bytes = sample_header().to_bytes();
    bytes[0] = b'X';
    assert!(Header::from_bytes(&bytes).is_err());
}

#[test]
fn test_header_rejects_wrong_version() {
    let mut bytes = sample_header().to_bytes();
    bytes[7] = 2;
    let err = Header::from_bytes(&bytes).unwrap_err().message();
    assert!(err.contains("version 2"), "got: {}", err);
}

#[test]
fn test_header_rejects_short_input() {
    assert!(Header::from_bytes(&[0u8; 10]).is_err());
}

#[test]
fn test_build_directories_falls_back_to_leaves() {
    // A directory only needs leaves once it stops compressing: scattered ids
    // and varied lengths defeat gzip the way a real sparse tileset does.
    let mut state = 0x2545F4914F6CDD1Du64;
    let mut next = || {
        state ^= state << 13;
        state ^= state >> 7;
        state ^= state << 17;
        state
    };

    let mut entries = Vec::new();
    let mut id = 0u64;
    let mut offset = 0u64;
    for _ in 0..60_000 {
        id += 1 + next() % 4096;
        let length = (1000 + next() % 60000) as u32;
        entries.push(Entry {
            tile_id: id,
            offset,
            length,
            run_length: 1,
        });
        // Non-contiguous, so the offset column cannot use the shorthand
        offset += length as u64 + next() % 7;
    }

    let (root, leaves, leaf_count) = build_directories(&entries).unwrap();
    assert!(leaf_count > 0, "this directory should not fit in a root");
    assert!(
        root.len() <= MAX_ROOT_DIR_LEN,
        "root is {} bytes, over the {} limit",
        root.len(),
        MAX_ROOT_DIR_LEN
    );
    assert!(!leaves.is_empty());

    // Reassembling root + leaves must give back exactly the input
    let root_entries = deserialize_directory(&ungzip(&root)).unwrap();
    assert_eq!(root_entries.len(), leaf_count);
    let mut rebuilt = Vec::new();
    for pointer in &root_entries {
        assert_eq!(pointer.run_length, 0, "root entries must point at leaves");
        let start = pointer.offset as usize;
        let end = start + pointer.length as usize;
        rebuilt.extend(deserialize_directory(&ungzip(&leaves[start..end])).unwrap());
    }
    assert_eq!(rebuilt, entries);
}

#[test]
fn test_build_directories_keeps_a_compressible_directory_in_the_root() {
    // Consecutive ids, uniform lengths, contiguous offsets: the columns are
    // almost all the same varint, so even a large tileset stays root-only.
    let entries: Vec<Entry> = (0..50_000u64)
        .map(|i| Entry {
            tile_id: i,
            offset: i * 100,
            length: 100,
            run_length: 1,
        })
        .collect();

    let (root, leaves, leaf_count) = build_directories(&entries).unwrap();
    assert_eq!(leaf_count, 0);
    assert!(leaves.is_empty());
    assert!(root.len() <= MAX_ROOT_DIR_LEN);
}

#[test]
fn test_reader_errors_rather_than_panicking_on_a_bogus_header() {
    // Header claims sections far beyond the end of the file
    let mut bytes = sample_header().to_bytes().to_vec();
    bytes[8..16].copy_from_slice(&u64::MAX.to_le_bytes());
    let archive = ArchiveReader::open(&bytes[..HEADER_LEN], bytes.len() as u64).unwrap();
    assert!(archive.verify(&bytes).is_err());
    assert!(archive.get_tile(&bytes, 0, 0, 0).is_err());
}

#[test]
fn test_metadata_flattens_the_mbtiles_json_blob() {
    let mut meta: Vec<(String, String)> = Vec::new();
    meta.push(("name".to_string(), "parks".to_string()));
    meta.push(("json".to_string(), r#"{"vector_layers":[{"id":"parks"}]}"#.to_string()));

    let out: serde_json::Value = serde_json::from_str(&build_metadata(&meta).unwrap()).unwrap();
    assert_eq!(out["name"], "parks");
    assert_eq!(out["vector_layers"][0]["id"], "parks");
    assert!(out.get("json").is_none(), "the raw blob should not survive");
}

#[test]
fn test_metadata_survives_an_unparseable_json_blob() {
    let mut meta: Vec<(String, String)> = Vec::new();
    meta.push(("name".to_string(), "parks".to_string()));
    meta.push(("json".to_string(), "not json at all".to_string()));

    let out: serde_json::Value = serde_json::from_str(&build_metadata(&meta).unwrap()).unwrap();
    assert_eq!(out["name"], "parks");
}

#[test]
fn test_bounds_and_center_parsing() {
    assert_eq!(
        parse_bounds(&positions(Some("-1.0,50.0,1.0,52.0"))),
        (e7(-1.0), e7(50.0), e7(1.0), e7(52.0))
    );
    assert_eq!(parse_center(&positions(Some("-0.1,51.5,14"))), Some((e7(-0.1), e7(51.5))));
    assert_eq!(center_zoom(Some("-0.1,51.5,14")), Some(14));

    // Missing or malformed values fall back to the whole world
    let world = parse_bounds(&positions(None));
    assert_eq!(world.0, e7(-180.0));
    assert_eq!(world.2, e7(180.0));
    assert_eq!(world.3, e7(85.051_128_78));
    assert_eq!(parse_bounds(&positions(Some("garbage"))).0, e7(-180.0));
    assert_eq!(center_zoom(Some("-0.1,51.5")), None);
    // No center at all: the caller supplies the bounds midpoint instead
    assert_eq!(parse_center(&positions(None)), None);
    assert_eq!(parse_center(&positions(Some("garbage"))), None);
}

// --- whole archives ---

#[test]
fn an_archive_reads_back_every_tile() {
    let tiles = fixture();
    let (bytes, stats) = export(&tiles, &fixture_metadata());
    assert_eq!(stats.addressed_tiles, 5);
    // "tile-a" appears twice but is stored once
    assert_eq!(stats.tile_contents, 4);
    assert_eq!(stats.min_zoom, 0);
    assert_eq!(stats.max_zoom, 2);
    let archive = open(&bytes);
    assert_eq!(archive.verify(&bytes), Ok(()));
    for (z, x, y, expected) in &tiles {
        assert_eq!(archive.get_tile(&bytes, *z, *x, *y).unwrap(), Some(gzip(expected)));
    }
    // A tile that was never written
    assert_eq!(archive.get_tile(&bytes, 2, 0, 0).unwrap(), None);
    assert_eq!(archive.get_tile(&bytes, 31, 0, 0).unwrap(), None);
}

#[test]
fn identical_tiles_collapse_into_a_run() {
    let mut tiles = Vec::new();
    for x in 0..4 {
        for y in 0..4 {
            tiles.push((2u8, x, y, b"identical".to_vec()));
        }
    }
    let (bytes, stats) = export(&tiles, &[]);
    assert_eq!(stats.addressed_tiles, 16);
    assert_eq!(stats.tile_contents, 1);
    assert_eq!(stats.tile_entries, 1);
    let archive = open(&bytes);
    for x in 0..4 {
        for y in 0..4 {
            assert_eq!(archive.get_tile(&bytes, 2, x, y).unwrap(), Some(gzip(b"identical")));
        }
    }
    assert_eq!(archive.get_tile(&bytes, 3, 0, 0).unwrap(), None);
}

#[test]
fn the_header_and_metadata_come_from_the_store() {
    let (bytes, _) = export(&fixture(), &fixture_metadata());
    let header = Header::from_bytes(&bytes).unwrap();
    assert!((degrees(header.bounds.0) - -1.0).abs() < 1e-7);
    assert!((degrees(header.bounds.3) - 52.0).abs() < 1e-7);
    assert_eq!(header.center_zoom, 3);
    assert!(header.clustered);
    assert_eq!(header.tile_type, TileType::Mvt);
    assert_eq!(header.tile_compression, Compressed::Gzip);
    let start = header.metadata_offset as usize;
    let end = start + header.metadata_length as usize;
    let meta: serde_json::Value = serde_json::from_slice(&ungzip(&bytes[start..end])).unwrap();
    assert_eq!(meta["name"], "fixture");
    assert_eq!(meta["vector_layers"][0]["id"], "parks");
}

#[test]
fn a_larger_archive_reads_back_through_its_leaves() {
    let mut state = 0x2545F4914F6CDD1Du64;
    let mut next = || {
        state ^= state << 13;
        state ^= state >> 7;
        state ^= state << 17;
        state
    };
    let mut tiles = Vec::new();
    for x in 0..128u32 {
        for y in 0..128u32 {
            let size = 20 + (next() % 300) as usize;
            let mut blob = vec![0x1f, 0x8b];
            blob.extend((0..size).map(|_| next() as u8));
            tiles.push((7u8, x, y, blob));
        }
    }
    let plan = plan_export(&tiles.iter().map(|t| (t.0, t.1, 127 - t.2)).collect()).unwrap();
    let mut builder = ArchiveBuilder::new();
    let mut data = Vec::new();
    for p in &plan.tiles {
        let index = (p.x * 128 + (127 - p.tms_y)) as usize;
        if let Some(staged) = builder.add_tile(p.id, tiles[index].3.clone()) {
            data.extend(staged);
        }
    }
    assert_eq!(builder.addressed_tiles(), 16384);
    let head = builder.finish("{}", &place(7, 7)).unwrap();
    assert!(head.leaf_directories > 0);
    assert!(head.header.root_length as usize <= MAX_ROOT_DIR_LEN);
    let mut bytes = head.bytes;
    bytes.extend(data);
    let archive = open(&bytes);
    assert_eq!(archive.verify(&bytes), Ok(()));
    for (x, y) in [(0u32, 0u32), (63, 100), (127, 127), (12, 3)] {
        let expected = &tiles[(x * 128 + y) as usize].3;
        assert_eq!(archive.get_tile(&bytes, 7, x, y).unwrap().as_ref(), Some(expected));
    }
    assert_eq!(archive.get_tile(&bytes, 8, 0, 0).unwrap(), None);
    assert_eq!(archive.get_tile(&bytes, 0, 0, 0).unwrap(), None);
}

#[test]
fn every_stored_tile_is_gzipped() {
    let tiles = vec![
        (0u8, 0u32, 0u32, b"raw tile bytes".to_vec()),
        (1, 0, 0, gzip(b"gzipped tile bytes")),
    ];
    let (bytes, _) = export(&tiles, &[]);
    let archive = open(&bytes);
    assert_eq!(archive.header().tile_compression, Compressed::Gzip);
    for (z, expected) in [(0u8, &b"raw tile bytes"[..]), (1, &b"gzipped tile bytes"[..])] {
        let stored = archive.get_tile(&bytes, z, 0, 0).unwrap().unwrap();
        assert!(is_gzipped(&stored));
        assert_eq!(ungzip(&stored), expected);
    }
}

#[test]
fn a_lookup_asks_for_one_range_at_a_time() {
    let (bytes, _) = export(&fixture(), &[]);
    let archive = open(&bytes);
    let mut lookup = archive.begin_lookup(1, 1, 0).unwrap();
    let mut reads = 0;
    let tile = loop {
        let range = lookup.next_read().unwrap();
        reads += 1;
        let start = range.offset as usize;
        let part = &bytes[start..start + range.length as usize];
        if let TileLookup::Tile { .. } = lookup {
            break part.to_vec();
        }
        lookup = archive.resume_lookup(lookup, part).unwrap();
    };
    assert_eq!(reads, 2);
    assert_eq!(tile, gzip(b"tile-b"));
    let missing = archive.begin_lookup(5, 3, 3).unwrap();
    let range = missing.next_read().unwrap();
    let start = range.offset as usize;
    let next = archive.resume_lookup(missing, &bytes[start..start + range.length as usize]).unwrap();
    assert_eq!(next, TileLookup::Missing);
    assert_eq!(next.next_read(), None);
}

#[test]
fn a_truncated_archive_fails_its_check() {
    let (mut bytes, _) = export(&fixture(), &[]);
    bytes.truncate(bytes.len() / 2);
    let archive = open(&bytes);
    assert!(matches!(archive.verify(&bytes), Err(ArchiveError::DataOutside { .. })));
    assert_eq!(
        ArchiveReader::open(&bytes[..10], 10).unwrap_err(),
        ArchiveError::ShorterThanHeader
    );
    bytes[0] = b'X';
    assert_eq!(
        ArchiveReader::open(&bytes[..HEADER_LEN], 10).unwrap_err(),
        ArchiveError::Header(HeaderError::BadMagic)
    );
}

/// An archive of one directory and some tile data, with a header to tamper with.
fn tampered(entries: &[Entry], data: usize, tamper: &dyn Fn(&mut Header)) -> Vec<u8> {
    let root = gzip(&serialize_directory(entries));
    let mut header = sample_header();
    header.root_offset = 127;
    header.root_length = root.len() as u64;
    header.leaf_offset = 127 + root.len() as u64;
    header.data_offset = header.leaf_offset;
    header.data_length = data as u64;
    header.tile_entries = entries.len() as u64;
    tamper(&mut header);
    let mut bytes = header.to_bytes().to_vec();
    bytes.extend(root);
    bytes.extend(vec![7u8; data]);
    bytes
}

fn verified(bytes: &[u8]) -> Result<(), ArchiveError> {
    open(bytes).verify(bytes)
}

#[test]
fn checks_name_what_is_wrong() {
    let tile = |tile_id, offset, length| Entry { tile_id, offset, length, run_length: 1 };
    let leaf = |tile_id, offset, length| Entry { tile_id, offset, length, run_length: 0 };
    assert_eq!(verified(&tampered(&[tile(0, 0, 5)], 5, &|_| {})), Ok(()));
    assert_eq!(
        verified(&tampered(&[tile(9, 3, 5)], 5, &|_| {})),
        Err(ArchiveError::EntryOutside(9))
    );
    assert_eq!(
        verified(&tampered(&[tile(0, u64::MAX - 2, 5)], 5, &|_| {})),
        Err(ArchiveError::EntryOverflow)
    );
    assert_eq!(
        verified(&tampered(&[tile(0, 0, 5)], 5, &|h| h.tile_entries = 3)),
        Err(ArchiveError::EntryCount { declared: 3, found: 1 })
    );
    assert_eq!(
        verified(&tampered(&[tile(0, 0, 5)], 5, &|h| h.data_length = u64::MAX)),
        Err(ArchiveError::DataOverflow)
    );
    assert_eq!(
        verified(&tampered(&[leaf(0, 1, 5)], 5, &|h| h.leaf_offset = u64::MAX)),
        Err(ArchiveError::LeafOffsetOverflow)
    );
    assert_eq!(
        verified(&tampered(&[leaf(0, 0, 5)], 5, &|_| {})),
        Err(ArchiveError::Decompression)
    );
    assert!(matches!(
        verified(&tampered(&[leaf(0, 0, 500)], 5, &|_| {})),
        Err(ArchiveError::SectionOutside { offset: _, length: 500, .. })
    ));
    let bytes = tampered(&[tile(0, 8, 5)], 5, &|h| h.data_offset = u64::MAX);
    assert_eq!(
        open(&bytes).get_tile(&bytes, 0, 0, 0),
        Err(ArchiveError::TileOffsetOverflow)
    );
    let bytes = tampered(&[tile(0, 0, 5)], 5, &|h| h.root_length = u64::MAX);
    assert_eq!(open(&bytes).get_tile(&bytes, 0, 0, 0), Err(ArchiveError::SectionOverflow));
}

#[test]
fn a_second_level_of_leaves_is_not_followed() {
    // A leaf that points to itself.
    let pointer = Entry { tile_id: 0, offset: 0, length: 0, run_length: 0 };
    let mut leaf = gzip(&serialize_directory(&[pointer]));
    for _ in 0..4 {
        let pointer = Entry { tile_id: 0, offset: 0, length: leaf.len() as u32, run_length: 0 };
        leaf = gzip(&serialize_directory(&[pointer]));
    }
    let pointer = Entry { tile_id: 0, offset: 0, length: leaf.len() as u32, run_length: 0 };
    let mut bytes = tampered(&[pointer], 0, &|_| {});
    bytes.extend(&leaf);
    assert_eq!(open(&bytes).get_tile(&bytes, 0, 0, 0), Ok(None));
}

#[test]
fn exports_refuse_stores_that_make_no_sense() {
    assert_eq!(plan_export(&vec![]).unwrap_err(), ExportError::NoTiles);
    assert_eq!(
        plan_export(&vec![(1, 0, 0), (1, 0, 9)]).unwrap_err(),
        ExportError::OutsideGrid { z: 1, x: 0, tms_y: 9 }
    );
    assert_eq!(flip_y(31, 0, 0), Err(ExportError::ZoomOutOfRange(31)));
    assert_eq!(flip_y(3, 0, 0), Ok(7));
    assert_eq!(flip_y(0, 0, 0), Ok(0));
    assert_eq!(flip_y(3, 8, 0), Err(ExportError::OutsideGrid { z: 3, x: 8, tms_y: 0 }));
    let message = ExportError::OutsideGrid { z: 1, x: 0, tms_y: 9 }.message("a.mbtiles");
    assert_eq!(message, "tile 1/0/9 is outside the 2x2 grid of zoom 1");
    assert_eq!(ExportError::NoTiles.message("a.mbtiles"), "a.mbtiles contains no tiles");
}

#[test]
fn plans_follow_the_curve() {
    let plan = plan_export(&vec![(1, 1, 1), (0, 0, 0), (1, 0, 0), (1, 1, 0)]).unwrap();
    let ids: Vec<u64> = plan.tiles.iter().map(|t| t.id).collect();
    assert_eq!(ids, vec![0, 2, 3, 4]);
    assert_eq!((plan.tiles[1].z, plan.tiles[1].x, plan.tiles[1].tms_y), (1, 0, 0));
    assert_eq!((plan.tiles[3].x, plan.tiles[3].tms_y), (1, 1));
    assert_eq!((plan.min_zoom, plan.max_zoom), (0, 1));
}

#[test]
fn samples_compare_with_the_store() {
    let raw = Some(b"tile".to_vec());
    assert_eq!(check_sample(1, 0, 1, raw.clone(), Some(gzip(b"tile"))), Ok(()));
    assert_eq!(
        check_sample(1, 0, 1, raw.clone(), Some(b"tile".to_vec())),
        Err(ExportError::Mismatch { z: 1, x: 0, y: 1 })
    );
    assert_eq!(
        check_sample(1, 0, 1, raw, None),
        Err(ExportError::Missing { z: 1, x: 0, y: 1 })
    );
    assert_eq!(
        check_sample(1, 0, 1, None, None),
        Err(ExportError::Vanished { z: 1, x: 0, y: 1 })
    );
    let entry = |i: u64| Entry { tile_id: 10 * i, offset: 0, length: 1, run_length: 1 };
    let few: Vec<Entry> = (0..64).map(entry).collect();
    assert_eq!(sample_tile_ids(&few).len(), 64);
    let many: Vec<Entry> = (0..200).map(entry).collect();
    let sample = sample_tile_ids(&many);
    assert_eq!(sample.len(), 64);
    assert_eq!((sample[0], sample[1], sample[63]), (0, 30, 1890));
}

#[test]
fn samples_pass_the_first_entries() {
    let entry = |i: u64| Entry { tile_id: 10 * i, offset: 0, length: 1, run_length: 1 };
    for n in [65, 66, 127, 128, 1000] {
        let entries: Vec<Entry> = (0..n).map(entry).collect();
        let sample = sample_tile_ids(&entries);
        assert_eq!(sample.len(), 64);
        let last = if n < 128 { n - 1 } else { 63 * (n / 64) };
        assert_eq!((sample[0], sample[63]), (0, 10 * last));
        assert!(sample[63] >= 640);
        assert!(sample.windows(2).all(|w| w[0] < w[1] && w[1] - w[0] <= 10 * ((n + 61) / 63)));
    }
    assert!(sample_tile_ids(&[]).is_empty());
}

#[test]
fn truncated_directories_are_refused() {
    let entries = sample_entries();
    let bytes = serialize_directory(&entries);
    for k in 0..bytes.len() {
        assert_eq!(
            deserialize_directory(&bytes[..k]),
            Err(DirectoryError::Varint(VarintError::Truncated))
        );
    }
    assert!(deserialize_directory(&[]).is_err());
}

#[test]
fn an_export_does_not_overwrite_its_input() {
    assert_eq!(check_paths("a.mbtiles", "a.mbtiles", false), Err(PathClash::SamePath));
    assert_eq!(check_paths("a.mbtiles", "b.pmtiles", true), Err(PathClash::SameFile));
    assert_eq!(check_paths("a.mbtiles", "b.pmtiles", false), Ok(()));
    assert_eq!(path_clash(false, false), None);
    assert_eq!(
        PathClash::SamePath.message("a", "a"),
        "input and output are the same file: a"
    );
    assert_eq!(
        PathClash::SameFile.message("a", "b"),
        "output b is the same file as the input a"
    );
    assert_eq!(staging_path("x.pmtiles"), "x.pmtiles.tiles-staging");
}

#[test]
fn reports_count_what_was_saved() {
    let stats = ExportStats {
        addressed_tiles: 10,
        tile_entries: 7,
        tile_contents: 4,
        leaf_directories: 0,
        bytes_written: 1234,
        min_zoom: 0,
        max_zoom: 3,
        tiles_verified: 7,
    };
    let lines = export_report("x.pmtiles", &stats);
    assert_eq!(lines[0], "PMTiles archive: x.pmtiles");
    assert_eq!(lines[2], "  Zoom levels:       0-3");
    assert_eq!(lines[4], "  Directory entries: 7 (3 saved by runs)");
    assert_eq!(lines[5], "  Distinct blobs:    4 (3 deduplicated)");
    assert_eq!(lines[8], "  Verified:          7 tiles re-read and compared against the source");
}

// --- edges ---

#[test]
fn consecutive_tile_numbers_share_an_edge() {
    for id in tile_id(5, 0, 0)..tile_id(6, 0, 0) - 1 {
        let (_, x1, y1) = tile_id_to_zxy(id).unwrap();
        let (_, x2, y2) = tile_id_to_zxy(id + 1).unwrap();
        assert_eq!(x1.abs_diff(x2) + y1.abs_diff(y2), 1);
    }
    assert_eq!(hilbert_to_xy(2, 0), (2, 0, 0));
    assert_eq!(hilbert_to_xy(2, 15), (2, 3, 0));
}

#[test]
fn tile_numbers_end_with_zoom_31() {
    let last = tile_id(31, 0x7fff_ffff, 0);
    assert_eq!(last, 6148914691236517204);
    assert_eq!(tile_id_to_zxy(last), Ok((31, 0x7fff_ffff, 0)));
    assert_eq!(tile_id_to_zxy(last + 1), Err(TileIdError::BeyondZoom31(last + 1)));
    assert_eq!(
        TileIdError::BeyondZoom31(7).message(),
        "tile id 7 is beyond zoom 31"
    );
    // Coordinates count modulo the edge of the grid.
    assert_eq!(tile_id(1, 3, 2), tile_id(1, 1, 0));
}

#[test]
fn varints_of_ten_bytes() {
    let mut pos = 0;
    let all = [0xffu8; 10];
    assert_eq!(read_varint(&all, &mut pos), Err(VarintError::TooLong));
    assert_eq!(pos, 10);
    let mut most = [0xffu8; 10];
    most[9] = 0x7f;
    pos = 0;
    assert_eq!(read_varint(&most, &mut pos), Ok(u64::MAX));
    pos = 5;
    assert_eq!(read_varint(&[1, 2], &mut pos), Err(VarintError::Truncated));
    assert_eq!(pos, 5);
}

#[test]
fn directories_name_what_is_wrong() {
    let bytes = |values: &[u64]| {
        let mut out = Vec::new();
        for v in values {
            write_varint(&mut out, *v);
        }
        out
    };
    assert_eq!(
        deserialize_directory(&bytes(&[10_000_001])),
        Err(DirectoryError::ImplausibleCount(10_000_001))
    );
    assert_eq!(
        deserialize_directory(&bytes(&[1, 5, 1, 9, 0])),
        Err(DirectoryError::FirstEntryContiguous)
    );
    assert_eq!(
        deserialize_directory(&bytes(&[2, u64::MAX, 1])),
        Err(DirectoryError::TileIdOverflow)
    );
    assert_eq!(
        deserialize_directory(&bytes(&[2, 0, 1, 1, 1, 9, 9, u64::MAX, 0])),
        Err(DirectoryError::OffsetOverflow)
    );
    assert_eq!(
        deserialize_directory(&bytes(&[2, 0, 1, 1])),
        Err(DirectoryError::Varint(VarintError::Truncated))
    );
    let entries = deserialize_directory(&bytes(&[1, 5, 0x1_0000_0002, 0x1_0000_0003, 1])).unwrap();
    assert_eq!(entries, vec![Entry { tile_id: 5, offset: 0, length: 3, run_length: 2 }]);
    assert_eq!(
        DirectoryError::ImplausibleCount(7).message(),
        "directory claims 7 entries, which is implausible"
    );
}

#[test]
fn headers_name_what_is_wrong() {
    let good = sample_header().to_bytes();
    let with = |i: usize, b: u8| {
        let mut bytes = good;
        bytes[i] = b;
        Header::from_bytes(&bytes).unwrap_err()
    };
    assert_eq!(with(97, 3), HeaderError::UnsupportedInternalCompression(3));
    assert_eq!(with(98, 0), HeaderError::UnsupportedTileCompression(0));
    assert_eq!(with(99, 2), HeaderError::UnsupportedTileType(2));
    assert_eq!(Header::from_bytes(&good[..126]).unwrap_err(), HeaderError::TooShort(126));
    assert_eq!(
        HeaderError::TooShort(10).message(),
        "PMTiles header is 10 bytes, expected 127"
    );
    let mut bytes = good;
    bytes[96] = 2;
    bytes[98] = 1;
    let header = Header::from_bytes(&bytes).unwrap();
    assert!(!header.clustered);
    assert_eq!(header.tile_compression, Compressed::Raw);
}

#[test]
fn stored_directories_are_decompressed() {
    let entries = sample_entries();
    let stored = gzip(&serialize_directory(&entries));
    assert_eq!(read_directory(&stored), Ok(entries));
    assert_eq!(read_directory(b"nonsense"), Err(ArchiveError::Decompression));
    assert_eq!(
        BuildError::RootTooLarge(5).message(),
        "cannot fit a root directory for 5 tile entries into 16257 bytes"
    );
}

#[test]
fn embedded_metadata_prevails() {
    let meta = vec![
        ("name".to_string(), "flat".to_string()),
        ("json".to_string(), r#"{"name": "old"}"#.to_string()),
        ("json".to_string(), r#"{"name": "nested", "n": 1.5}"#.to_string()),
        ("x".to_string(), "y".to_string()),
    ];
    assert_eq!(build_metadata(&meta).unwrap(), r#"{"n":1.5,"name":"nested","x":"y"}"#);
    assert_eq!(build_metadata(&vec![("json".to_string(), "[1]".to_string())]).unwrap(), "{}");
}

#[test]
fn commas_split_texts() {
    assert_eq!(split_commas("a,,b c,"), vec!["a", "", "b c", ""]);
    assert_eq!(split_commas(""), vec![""]);
}

#[test]
fn plain_paths_clash_only_with_themselves() {
    assert_eq!(check_paths("data/a.mbtiles", "data/a.pmtiles", false), Ok(()));
    assert_eq!(check_paths("/data/a", "data/a", false), Ok(()));
    assert_eq!(check_paths("data/a", "data/a", false), Err(PathClash::SamePath));
    assert_eq!(check_paths("data//a", "data/a", false), Err(PathClash::SamePath));
    assert_eq!(check_paths("/data/a", "/data/b", false), Ok(()));
    assert_eq!(check_paths("./a", "a", false), Ok(()));
    assert_eq!(check_paths("./a", "./a", false), Err(PathClash::SamePath));
    assert_eq!(check_paths("/data/.a", "/data/a", false), Ok(()));
    assert_eq!(check_paths("../a", "a", false), Ok(()));
    assert_eq!(check_paths("data/../a", "a", false), Ok(()));
}

#[test]
fn no_tile_is_planned_twice() {
    let plan = plan_export(&vec![(2, 3, 0), (0, 0, 0), (2, 0, 3), (1, 1, 0)]).unwrap();
    let ids: Vec<u64> = plan.tiles.iter().map(|tile| tile.id).collect();
    assert!(ids.windows(2).all(|w| w[0] < w[1]));
    assert_eq!(ids.len(), 4);
}

#[test]
fn runs_are_as_long_as_can_be() {
    let mut builder = ArchiveBuilder::new();
    let tiles: [(u64, &[u8]); 8] = [
        (1, b"sea"),
        (2, b"sea"),
        (3, b""),
        (4, b""),
        (5, b"land"),
        (6, b"sea"),
        (8, b"sea"),
        (9, b"sea"),
    ];
    for (id, blob) in tiles {
        builder.add_tile(id, blob.to_vec());
    }
    let entries = builder.entries();
    let runs: Vec<(u64, u32)> = entries.iter().map(|e| (e.tile_id, e.run_length)).collect();
    assert_eq!(runs, vec![(1, 2), (3, 2), (5, 1), (6, 1), (8, 2)]);
    for pair in entries.windows(2) {
        let next = pair[0].tile_id + pair[0].run_length as u64 == pair[1].tile_id;
        let same = (pair[0].offset, pair[0].length) == (pair[1].offset, pair[1].length);
        assert!(!(next && same));
    }
}
