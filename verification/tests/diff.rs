//! Comparing tile stores.
use tilefeed::diff::{
    diff_report, digests_differ, hash_tile, metadata_differences, tile_changed, DiffSide, TileScan,
};
use tilefeed::tiles::{compare_tiles, TileComparison, TileCoord};

#[test]
fn test_hash_tile_deterministic() {
    let data = b"hello world";
    let hash1 = hash_tile(data);
    let hash2 = hash_tile(data);
    assert_eq!(hash1, hash2);
}

#[test]
fn test_hash_tile_different_data() {
    let hash1 = hash_tile(b"data_a");
    let hash2 = hash_tile(b"data_b");
    assert_ne!(hash1, hash2);
}

#[test]
fn test_hash_tile_empty() {
    let hash = hash_tile(b"");
    // SHA-256 of empty input is well-known
    assert_eq!(hash.len(), 32);
    assert_eq!(hash[..4], [0xe3, 0xb0, 0xc4, 0x42]);
}

#[test]
fn tiles_change_with_their_bytes() {
    assert!(!tile_changed(None, None));
    assert!(tile_changed(Some(vec![1]), None));
    assert!(tile_changed(None, Some(vec![])));
    assert!(!tile_changed(Some(vec![1, 2]), Some(vec![1, 2])));
    assert!(tile_changed(Some(vec![1, 2]), Some(vec![2, 1])));
    assert!(digests_differ(Some([0; 32]), Some([1; 32])));
    assert!(!digests_differ(Some([1; 32]), Some([1; 32])));
}

fn pair(name: &str, value: &str) -> (String, String) {
    (name.to_string(), value.to_string())
}

#[test]
fn metadata_differs_by_name() {
    let a = vec![pair("format", "pbf"), pair("gone", "1"), pair("name", "old")];
    let b = vec![pair("added", "2"), pair("format", "pbf"), pair("name", "new")];
    assert_eq!(
        metadata_differences(&a, &b),
        vec![
            "  gone: \"1\" -> (removed)",
            "  name: \"old\" -> \"new\"",
            "  added: (added) -> \"2\"",
        ]
    );
    assert!(metadata_differences(&a, &a).is_empty());
}

fn side(path: &str, tile_count: u64) -> DiffSide {
    DiffSide { path: path.to_string(), metadata: vec![pair("name", "x")], tile_count }
}

fn t(z: u8, x: u32, y: u32) -> TileCoord {
    TileCoord { z, x, y }
}

#[test]
fn identical_stores_have_no_table() {
    let tiles = compare_tiles(&vec![t(0, 0, 0)], &vec![t(0, 0, 0)]);
    let mut scan = TileScan::new(tiles);
    scan.record(Some(vec![1]), Some(vec![1]));
    let lines = diff_report(&side("a", 1), &side("b", 1), &scan);
    assert_eq!(
        lines,
        vec![
            "Comparing:",
            "  A: a",
            "  B: b",
            "",
            "Metadata: identical",
            "",
            "Tile count: 1 -> 1",
            "",
            "Summary:",
            "  Added tiles (only in B):   0",
            "  Removed tiles (only in A): 0",
            "  Changed tiles (different): 0",
            "  Unchanged tiles:           1",
        ]
    );
}

#[test]
fn changes_are_counted_by_zoom() {
    let tiles = TileComparison {
        only_a: vec![t(1, 0, 0)],
        only_b: vec![t(1, 1, 1), t(12, 5, 5)],
        both: vec![t(0, 0, 0), t(2, 0, 0)],
    };
    let mut b = side("b", 4);
    b.metadata = vec![];
    let mut scan = TileScan::new(tiles);
    assert_eq!(scan.next(), Some(t(0, 0, 0)));
    scan.record(Some(vec![1]), Some(vec![1]));
    assert_eq!(scan.next(), Some(t(2, 0, 0)));
    scan.record(Some(vec![1]), Some(vec![2]));
    assert_eq!(scan.next(), None);
    assert_eq!(scan.changed(), &vec![t(2, 0, 0)]);
    let lines = diff_report(&side("a", 3), &b, &scan);
    assert_eq!(lines[4..6], ["Metadata differences:", "  name: \"x\" -> (removed)"]);
    assert_eq!(
        lines[13..],
        [
            "  Unchanged tiles:           1",
            "",
            "Changes by zoom level:",
            "   Zoom     Added   Removed   Changed",
            "  -----  --------  --------  --------",
            "      1         1         1         0",
            "      2         0         0         1",
            "     12         1         0         0",
        ]
    );
}

/// What a store holds: its metadata and its tiles.
struct Contents {
    metadata: Vec<(String, String)>,
    tiles: Vec<(TileCoord, Vec<u8>)>,
}

fn contents(metadata: &[(&str, &str)], tiles: &[(u8, u32, u32, &[u8])]) -> Contents {
    Contents {
        metadata: metadata.iter().map(|(name, value)| pair(name, value)).collect(),
        tiles: tiles.iter().map(|(z, x, y, data)| (t(*z, *x, *y), data.to_vec())).collect(),
    }
}

fn compare(a: &Contents, b: &Contents) -> Vec<String> {
    let places = |c: &Contents| c.tiles.iter().map(|(place, _)| *place).collect::<Vec<TileCoord>>();
    let data = |c: &Contents, place: TileCoord| {
        c.tiles.iter().find(|(at, _)| *at == place).map(|(_, data)| data.clone())
    };
    let tiles = compare_tiles(&places(a), &places(b));
    let mut scan = TileScan::new(tiles);
    while let Some(p) = scan.next() {
        scan.record(data(a, p), data(b, p));
    }
    let described = |path: &str, c: &Contents| DiffSide {
        path: path.to_string(),
        metadata: c.metadata.clone(),
        tile_count: c.tiles.len() as u64,
    };
    diff_report(&described("a", a), &described("b", b), &scan)
}

fn summary(added: u64, removed: u64, changed: u64, unchanged: u64) -> Vec<String> {
    vec![
        "Summary:".to_string(),
        format!("  Added tiles (only in B):   {}", added),
        format!("  Removed tiles (only in A): {}", removed),
        format!("  Changed tiles (different): {}", changed),
        format!("  Unchanged tiles:           {}", unchanged),
    ]
}

fn shows(lines: &[String], part: &[String]) -> bool {
    lines.windows(part.len()).any(|w| w == part)
}

#[test]
fn test_diff_identical_mbtiles() {
    let a = contents(&[("name", "test")], &[(0, 0, 0, b"same")]);
    let b = contents(&[("name", "test")], &[(0, 0, 0, b"same")]);
    let lines = compare(&a, &b);
    assert!(lines.contains(&"Metadata: identical".to_string()));
    assert!(shows(&lines, &summary(0, 0, 0, 1)));
    assert!(!lines.contains(&"Changes by zoom level:".to_string()));
}

#[test]
fn test_diff_added_tiles() {
    let a = contents(&[], &[(0, 0, 0, b"tile")]);
    let b = contents(&[], &[(0, 0, 0, b"tile"), (1, 0, 0, b"new")]);
    let lines = compare(&a, &b);
    assert!(lines.contains(&"Tile count: 1 -> 2".to_string()));
    assert!(shows(&lines, &summary(1, 0, 0, 1)));
    assert_eq!(lines.last().unwrap(), "      1         1         0         0");
}

#[test]
fn test_diff_removed_tiles() {
    let a = contents(&[], &[(0, 0, 0, b"tile"), (1, 0, 0, b"extra")]);
    let b = contents(&[], &[(0, 0, 0, b"tile")]);
    let lines = compare(&a, &b);
    assert!(lines.contains(&"Tile count: 2 -> 1".to_string()));
    assert!(shows(&lines, &summary(0, 1, 0, 1)));
    assert_eq!(lines.last().unwrap(), "      1         0         1         0");
}

#[test]
fn test_diff_changed_tiles() {
    let a = contents(&[], &[(0, 0, 0, b"old_data")]);
    let b = contents(&[], &[(0, 0, 0, b"new_data")]);
    let lines = compare(&a, &b);
    assert!(shows(&lines, &summary(0, 0, 1, 0)));
    assert_eq!(lines.last().unwrap(), "      0         0         0         1");
}

#[test]
fn test_diff_empty_mbtiles() {
    let lines = compare(&contents(&[], &[]), &contents(&[], &[]));
    assert!(lines.contains(&"Metadata: identical".to_string()));
    assert!(lines.contains(&"Tile count: 0 -> 0".to_string()));
    assert!(shows(&lines, &summary(0, 0, 0, 0)));
}

#[test]
fn test_diff_metadata_differences() {
    let a = contents(&[("format", "pbf"), ("name", "v1")], &[]);
    let b = contents(&[("name", "v2"), ("version", "2")], &[]);
    let lines = compare(&a, &b);
    assert!(lines.contains(&"Metadata differences:".to_string()));
    assert!(lines.contains(&"  format: \"pbf\" -> (removed)".to_string()));
    assert!(lines.contains(&"  name: \"v1\" -> \"v2\"".to_string()));
    assert!(lines.contains(&"  version: (added) -> \"2\"".to_string()));
}
