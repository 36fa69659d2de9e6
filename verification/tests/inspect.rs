//! Describing tile stores.
use tilefeed::inspect::{format_bytes, inspect_report, StoreSummary};

fn by_floats(bytes: u64) -> String {
    if bytes < 1024 {
        format!("{} B", bytes)
    } else if bytes < 1024 * 1024 {
        format!("{:.1} KB", bytes as f64 / 1024.0)
    } else if bytes < 1024 * 1024 * 1024 {
        format!("{:.1} MB", bytes as f64 / (1024.0 * 1024.0))
    } else {
        format!("{:.2} GB", bytes as f64 / (1024.0 * 1024.0 * 1024.0))
    }
}

#[test]
fn sizes_in_the_largest_unit() {
    assert_eq!(format_bytes(0), "0 B");
    assert_eq!(format_bytes(1023), "1023 B");
    assert_eq!(format_bytes(1024), "1.0 KB");
    assert_eq!(format_bytes(1536), "1.5 KB");
    assert_eq!(format_bytes(1024 * 1024 - 1), "1024.0 KB");
    assert_eq!(format_bytes(5 * 1024 * 1024), "5.0 MB");
    assert_eq!(format_bytes(3 * 1024 * 1024 * 1024 / 2), "1.50 GB");
    assert_eq!(format_bytes(u64::MAX), "17179869184.00 GB");
}

#[test]
fn sizes_round_as_floating_point_does() {
    // Ties at every unit, and numbers that are no doubles.
    for k in 0..4096u64 {
        let bytes = 1024 + 64 * k;
        assert_eq!(format_bytes(bytes), by_floats(bytes));
        let bytes = 1024 * 1024 + 65536 * k + k % 3;
        assert_eq!(format_bytes(bytes), by_floats(bytes));
        let bytes = (1u64 << 30) + (k << 23) + (k << 21);
        assert_eq!(format_bytes(bytes), by_floats(bytes));
    }
    let mut state = 0x9E3779B97F4A7C15u64;
    for k in 0..20000u64 {
        state ^= state << 13;
        state ^= state >> 7;
        state ^= state << 17;
        let bytes = state >> (k % 64);
        assert_eq!(format_bytes(bytes), by_floats(bytes));
        let near = u64::MAX - (state % 5000);
        assert_eq!(format_bytes(near), by_floats(near));
    }
}

#[test]
fn an_empty_store_has_no_table() {
    let summary = StoreSummary {
        metadata: vec![],
        total_tiles: 0,
        total_size: 0,
        average_size: 0,
        by_zoom: vec![],
        file_size: None,
    };
    assert_eq!(
        inspect_report("a.mbtiles", &summary),
        vec!["MBTiles: a.mbtiles", "", "Metadata: (none)", "", "Total tiles: 0"]
    );
}

#[test]
fn a_store_is_described_zoom_by_zoom() {
    let summary = StoreSummary {
        metadata: vec![("format".to_string(), "pbf".to_string())],
        total_tiles: 12,
        total_size: 2048,
        average_size: 170,
        by_zoom: vec![(0, 1), (14, 11)],
        file_size: Some(4096),
    };
    assert_eq!(
        inspect_report("a.mbtiles", &summary),
        vec![
            "MBTiles: a.mbtiles",
            "",
            "Metadata:",
            "  format: pbf",
            "",
            "Total tiles: 12",
            "Total tile data: 2.0 KB",
            "Average tile size: 170 B",
            "",
            "Tiles by zoom level:",
            "   Zoom       Tiles",
            "  -----  ----------",
            "      0           1",
            "     14          11",
            "",
            "File size on disk: 4.0 KB",
        ]
    );
}
