//! Tile stores: addresses, rows and words.
use tilefeed::mbtiles::{
    default_metadata, immutable_uri, native_description, not_a_store, open_failure,
    read_only_failure, stored_row, tms_row,
};

#[test]
fn tiles_outside_the_grid_have_no_row() {
    assert_eq!(stored_row(3, 0), Some(7));
    assert_eq!(stored_row(3, 7), Some(0));
    assert_eq!(stored_row(3, 8), None);
    assert_eq!(stored_row(0, 1), None);
    assert_eq!(stored_row(31, 0x7fff_ffff), Some(0));
    assert_eq!(stored_row(32, 0), None);
    assert_eq!(stored_row(255, u32::MAX), None);
}

#[test]
fn test_immutable_uri_escaping() {
    assert_eq!(
        immutable_uri("/tmp/a.mbtiles"),
        "file:/tmp/a.mbtiles?immutable=1"
    );
    assert_eq!(
        immutable_uri("/tmp/my tiles.mbtiles"),
        "file:/tmp/my%20tiles.mbtiles?immutable=1"
    );
    // Windows paths become file:///C:/...
    assert_eq!(
        immutable_uri("C:\\data\\a.mbtiles"),
        "file:/C:/data/a.mbtiles?immutable=1"
    );
}

#[test]
fn immutable_uris_escape_what_the_parser_reads() {
    assert_eq!(immutable_uri("a%b?c#d"), "file:a%25b%3fc%23d?immutable=1");
    assert_eq!(immutable_uri("/x:y"), "file:/x:y?immutable=1");
    assert_eq!(immutable_uri("\\:y"), "file:/:y?immutable=1");
    assert_eq!(immutable_uri(""), "file:?immutable=1");
}

#[test]
fn rows_count_from_the_south() {
    assert_eq!(tms_row(0, 0), 0);
    assert_eq!(tms_row(3, 0), 7);
    assert_eq!(tms_row(3, 7), 0);
    assert_eq!(tms_row(31, 0), 0x7fff_ffff);
    assert_eq!(tms_row(10, tms_row(10, 340)), 340);
}

#[test]
fn new_stores_describe_themselves() {
    let metadata = default_metadata("parks", &native_description("parks"));
    assert_eq!(metadata.len(), 6);
    assert_eq!(metadata[0], ("name".to_string(), "parks".to_string()));
    assert_eq!(metadata[1], ("format".to_string(), "pbf".to_string()));
    assert_eq!(metadata[4].1, "Generated by tilefeed for parks");
    assert_eq!(metadata[5], ("scheme".to_string(), "tms".to_string()));
}

#[test]
fn failures_say_what_to_do() {
    assert_eq!(open_failure("a", true, "locked"), "Failed to open MBTiles at a: locked");
    assert_eq!(
        open_failure("a", false, "x"),
        "MBTiles file not found: a. Run `tilefeed generate` to build it first."
    );
    assert_eq!(read_only_failure("a", false, "x"), "MBTiles file not found: a");
    assert_eq!(read_only_failure("a", true, "x"), "Failed to open MBTiles at a: x");
    assert_eq!(not_a_store("a", false), "a is not a valid MBTiles file (no `tiles` table)");
    assert_eq!(
        not_a_store("a", true),
        "a is not a valid MBTiles file (no `tiles` table). Run `tilefeed generate` to rebuild it."
    );
}

#[test]
fn test_write_default_metadata() {
    let metadata = default_metadata("my_tiles", "A test tileset");
    let value = |name: &str| {
        metadata.iter().find(|(key, _)| key == name).map(|(_, value)| value.clone())
    };
    assert_eq!(value("name"), Some("my_tiles".to_string()));
    assert_eq!(value("format"), Some("pbf".to_string()));
    assert_eq!(value("type"), Some("overlay".to_string()));
    assert_eq!(value("version"), Some("2".to_string()));
    assert_eq!(value("description"), Some("A test tileset".to_string()));
    assert_eq!(value("scheme"), Some("tms".to_string()));
}

#[test]
fn test_tms_y_flip() {
    // At zoom 2 there are 4 rows: the northernmost is stored as row 3.
    let z: u8 = 2;
    let xyz_y: u32 = 0;
    let expected_tms_y: u32 = (1u32 << z) - 1 - xyz_y;
    assert_eq!(expected_tms_y, 3);
    assert_eq!(tms_row(z, xyz_y), expected_tms_y);
}

#[test]
fn test_tms_y_flip_bottom() {
    // At zoom 3 the southernmost row is stored as row 0.
    let z: u8 = 3;
    let xyz_y: u32 = 7;
    let expected_tms_y: u32 = 0;
    assert_eq!(tms_row(z, xyz_y), expected_tms_y);
}
