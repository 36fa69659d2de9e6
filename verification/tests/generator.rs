//! Generation: arguments, required programs and the order of tiles.
use tilefeed::config::{GenerationBackend, SourceConfig, TippecanoeConfig};
use tilefeed::generator::{
    export_dir_name, first_tile, gdal_args, gdal_failure, geojson_name, missing_tool, next_tile,
    program_name, required_tools, tippecanoe_args, tippecanoe_failure,
};
use tilefeed::tiles::TileCoord;

fn sample_source(backend: GenerationBackend) -> SourceConfig {
    SourceConfig {
        name: "test".to_string(),
        mbtiles_path: "/tmp/test.mbtiles".to_string(),
        min_zoom: 0,
        max_zoom: 4,
        generation_backend: backend,
        layers: vec![],
        tippecanoe: TippecanoeConfig::default(),
    }
}

#[test]
fn test_check_required_tools_native_needs_nothing() {
    let sources = vec![sample_source(GenerationBackend::Native)];
    assert!(required_tools(&sources, None, None).is_empty());
}

#[test]
fn test_check_required_tools_tippecanoe_missing() {
    let sources = vec![sample_source(GenerationBackend::Tippecanoe)];
    let required = required_tools(&sources, Some("nonexistent_xyz_12345"), None);
    assert_eq!(required.len(), 1);
    assert_eq!(required[0].program, "nonexistent_xyz_12345");
    assert_eq!(
        missing_tool(&required[0]),
        "'nonexistent_xyz_12345' not found. Is tippecanoe installed and in PATH?"
    );
}

#[test]
fn test_check_required_tools_gdal_missing() {
    let sources = vec![sample_source(GenerationBackend::Gdal)];
    let required = required_tools(&sources, None, Some("nonexistent_xyz_12345"));
    assert_eq!(required.len(), 1);
    assert_eq!(required[0].name, "ogr2ogr");
    assert_eq!(required[0].program, "nonexistent_xyz_12345");
}

#[test]
fn test_check_required_tools_skips_unneeded() {
    // Native backend should not check for tippecanoe or ogr2ogr
    let sources = vec![sample_source(GenerationBackend::Native)];
    assert!(required_tools(&sources, Some("nonexistent_xyz"), Some("nonexistent_xyz")).is_empty());
}

#[test]
fn both_programs_can_be_needed() {
    let sources = vec![
        sample_source(GenerationBackend::Gdal),
        sample_source(GenerationBackend::Native),
        sample_source(GenerationBackend::Tippecanoe),
    ];
    let names: Vec<String> =
        required_tools(&sources, None, None).into_iter().map(|t| t.program).collect();
    assert_eq!(names, vec!["tippecanoe", "ogr2ogr"]);
    assert_eq!(program_name("ogr2ogr", Some("/opt/ogr2ogr")), "/opt/ogr2ogr");
}

#[test]
fn tippecanoe_gets_the_defaults() {
    let source = sample_source(GenerationBackend::Tippecanoe);
    let files = vec![("parks".to_string(), "/tmp/parks.geojson".to_string())];
    assert_eq!(
        tippecanoe_args(&source, &files),
        vec![
            "-o",
            "/tmp/test.mbtiles",
            "--force",
            "--minimum-zoom",
            "0",
            "--maximum-zoom",
            "4",
            "--no-tile-size-limit",
            "--named-layer",
            "parks:/tmp/parks.geojson",
        ]
    );
}

#[test]
fn tippecanoe_gets_every_setting() {
    let mut source = sample_source(GenerationBackend::Tippecanoe);
    source.tippecanoe = TippecanoeConfig {
        drop_densest_as_needed: Some(true),
        drop_fraction_as_needed: Some(true),
        drop_smallest_as_needed: Some(true),
        coalesce_densest_as_needed: Some(true),
        extend_zooms_if_still_dropping: Some(true),
        drop_rate: Some("2.5".to_string()),
        base_zoom: Some(10),
        simplification: Some("10".to_string()),
        detect_shared_borders: Some(true),
        no_tiny_polygon_reduction: Some(true),
        no_feature_limit: Some(true),
        no_tile_size_limit: Some(false),
        no_tile_compression: Some(true),
        buffer: Some(5),
        full_detail: Some(12),
        low_detail: Some(11),
        minimum_detail: Some(7),
        extra_args: Some(vec!["--quiet".to_string(), "-x".to_string()]),
    };
    assert_eq!(
        tippecanoe_args(&source, &vec![])[7..],
        [
            "--drop-densest-as-needed",
            "--drop-fraction-as-needed",
            "--drop-smallest-as-needed",
            "--coalesce-densest-as-needed",
            "--extend-zooms-if-still-dropping",
            "--drop-rate",
            "2.5",
            "--base-zoom",
            "10",
            "--simplification",
            "10",
            "--detect-shared-borders",
            "--no-tiny-polygon-reduction",
            "--no-feature-limit",
            "--no-tile-compression",
            "--buffer",
            "5",
            "--full-detail",
            "12",
            "--low-detail",
            "11",
            "--minimum-detail",
            "7",
            "--quiet",
            "-x",
        ]
    );
}

#[test]
fn ogr2ogr_appends_all_but_the_first_layer() {
    let source = sample_source(GenerationBackend::Gdal);
    let first = gdal_args(&source, 0, "parks", "p.geojson");
    assert_eq!(
        first,
        vec![
            "-f",
            "MBTiles",
            "/tmp/test.mbtiles",
            "p.geojson",
            "-nln",
            "parks",
            "-dsco",
            "MINZOOM=0",
            "-dsco",
            "MAXZOOM=4",
            "-dsco",
            "TYPE=overlay",
        ]
    );
    let second = gdal_args(&source, 1, "water", "w.geojson");
    assert_eq!(second[..4], ["-f", "MBTiles", "-update", "-append"]);
    assert_eq!(second.len(), first.len() + 2);
}

#[test]
fn generation_visits_every_tile_once() {
    let mut source = sample_source(GenerationBackend::Native);
    source.min_zoom = 1;
    source.max_zoom = 3;
    let mut seen = Vec::new();
    let mut tile = first_tile(&source);
    while let Some(t) = tile {
        seen.push((t.z, t.x, t.y));
        tile = next_tile(t, source.max_zoom);
    }
    let mut expected = Vec::new();
    for z in 1u8..=3 {
        for x in 0..1u32 << z {
            for y in 0..1u32 << z {
                expected.push((z, x, y));
            }
        }
    }
    assert_eq!(seen, expected);
    source.min_zoom = 4;
    assert_eq!(first_tile(&source), None);
    let last = TileCoord { z: 31, x: 0x7fff_ffff, y: 0x7fff_ffff };
    assert_eq!(next_tile(last, 31), None);
}

#[test]
fn names_and_failures() {
    assert_eq!(export_dir_name("parks"), "tilefeed-export-parks");
    assert_eq!(geojson_name("parks_labels"), "parks_labels.geojson");
    assert_eq!(tippecanoe_failure("s", "boom"), "Tippecanoe failed for source 's': boom");
    assert_eq!(
        gdal_failure("l", "s", "boom"),
        "ogr2ogr failed for layer 'l' in source 's': boom"
    );
}
