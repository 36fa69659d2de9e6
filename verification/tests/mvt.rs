//! Vector tiles: geometry commands, layers and whole tiles.
use flate2::read::GzDecoder;
use geo::Simplify;
use geo_types::{Coord, LineString, Polygon};
use serde_json::Value;
use std::io::Read;
use tilefeed::config::{LayerConfig, PropertyRule};
use tilefeed::mvt::{
    build_layer, command, compute_excluded_properties, detect_geom_type, encode_geometry,
    encode_tile, encode_tile_with_config, is_gzipped, json_to_mvt_value, parse_linestring,
    parse_polygon, read_geometry, simplification_input, simplification_tolerance, value_to_string,
    zigzag, FeatureData, FeaturesByLayer, GeomType, LonLat, ShapeKind, TileShape, TileValue,
    TileXy, WorldShape, EXTENT,
};
use tilefeed::tiles::TileCoord;

fn json(text: &str) -> Value {
    serde_json::from_str(text).unwrap()
}

fn lonlat(lon: f64, lat: f64) -> LonLat {
    LonLat { lon: lon.to_bits(), lat: lat.to_bits() }
}

fn text_of(value: &TileValue) -> Option<String> {
    match value {
        TileValue::Text(s) => Some(s.clone()),
        _ => None,
    }
}

fn int_of(value: &TileValue) -> Option<i64> {
    match value {
        TileValue::Int(i) => Some(*i),
        _ => None,
    }
}

fn double_of(value: &TileValue) -> Option<f64> {
    match value {
        TileValue::Double(bits) => Some(f64::from_bits(*bits)),
        _ => None,
    }
}

fn bool_of(value: &TileValue) -> Option<bool> {
    match value {
        TileValue::Bool(b) => Some(*b),
        _ => None,
    }
}

fn scaled(tolerance: (u64, u64)) -> f64 {
    f64::from_bits(tolerance.0) * tolerance.1 as f64
}

/// The position of a point in a tile.
fn to_tile_xy(point: &LonLat, tile: &TileCoord) -> TileXy {
    let (lon, lat) = (f64::from_bits(point.lon), f64::from_bits(point.lat));
    let n = (1u64 << tile.z) as f64;
    let west = tile.x as f64 / n * 360.0 - 180.0;
    let east = (tile.x + 1) as f64 / n * 360.0 - 180.0;
    let lat_at = |y: u32| {
        (std::f64::consts::PI * (1.0 - 2.0 * y as f64 / n)).sinh().atan().to_degrees()
    };
    let (north, south) = (lat_at(tile.y), lat_at(tile.y + 1));
    TileXy {
        x: ((lon - west) / (east - west) * EXTENT as f64) as i32,
        y: ((north - lat) / (north - south) * EXTENT as f64) as i32,
    }
}

fn project(geometry: &Value, tile: &TileCoord) -> TileShape {
    let shape = read_geometry(geometry);
    TileShape {
        kind: shape.kind,
        rings: shape
            .rings
            .iter()
            .map(|ring| ring.iter().map(|p| to_tile_xy(p, tile)).collect())
            .collect(),
    }
}

fn coords(ring: &[LonLat]) -> Vec<Coord<f64>> {
    ring.iter().map(|p| Coord { x: f64::from_bits(p.lon), y: f64::from_bits(p.lat) }).collect()
}

fn points(line: &LineString<f64>) -> Vec<LonLat> {
    line.0.iter().map(|c| lonlat(c.x, c.y)).collect()
}

fn simplify_geometry(geometry: &Value, tolerance: f64) -> WorldShape {
    match simplification_input(geometry) {
        None => read_geometry(geometry),
        Some(shape) => {
            let closed = matches!(shape.kind, ShapeKind::Polygon | ShapeKind::MultiPolygon);
            let rings = shape
                .rings
                .iter()
                .map(|ring| {
                    if closed {
                        let polygon = Polygon::new(LineString::new(coords(ring)), vec![]);
                        points(polygon.simplify(&tolerance).exterior())
                    } else {
                        points(&LineString::new(coords(ring)).simplify(&tolerance))
                    }
                })
                .collect();
            WorldShape { kind: shape.kind, rings }
        }
    }
}

fn make_feature(geom: Value, tile: &TileCoord) -> FeatureData {
    FeatureData {
        id: 1,
        geometry: project(&geom, tile),
        properties: json("{}"),
        layer_name: "test".to_string(),
    }
}

fn encode_feature_tile(geom: Value) -> Vec<u8> {
    let tile_coord = TileCoord { z: 0, x: 0, y: 0 };
    let mut features_by_layer: FeaturesByLayer = Vec::new();
    features_by_layer.push(("test".to_string(), vec![make_feature(geom, &tile_coord)]));
    encode_tile(&tile_coord, &features_by_layer).unwrap()
}

fn gunzip(data: &[u8]) -> Vec<u8> {
    let mut out = Vec::new();
    GzDecoder::new(data).read_to_end(&mut out).unwrap();
    out
}

#[test]
fn test_zigzag_zero() {
    assert_eq!(zigzag(0), 0);
}

#[test]
fn test_zigzag_positive() {
    assert_eq!(zigzag(1), 2);
    assert_eq!(zigzag(2), 4);
    assert_eq!(zigzag(100), 200);
}

#[test]
fn test_zigzag_negative() {
    assert_eq!(zigzag(-1), 1);
    assert_eq!(zigzag(-2), 3);
    assert_eq!(zigzag(-100), 199);
}

#[test]
fn test_zigzag_large_values() {
    assert_eq!(zigzag(i32::MAX), u32::MAX - 1);
    assert_eq!(zigzag(i32::MIN), u32::MAX);
}

#[test]
fn test_command_moveto() {
    // MoveTo (id=1), count=1
    let cmd = command(1, 1);
    assert_eq!(cmd & 0x7, 1); // id
    assert_eq!(cmd >> 3, 1); // count
}

#[test]
fn test_command_lineto() {
    // LineTo (id=2), count=5
    let cmd = command(2, 5);
    assert_eq!(cmd & 0x7, 2);
    assert_eq!(cmd >> 3, 5);
}

#[test]
fn test_command_closepath() {
    // ClosePath (id=7), count=1
    let cmd = command(7, 1);
    assert_eq!(cmd & 0x7, 7);
    assert_eq!(cmd >> 3, 1);
}

#[test]
fn test_detect_geom_type_point() {
    let geom = json(r#"{"type": "Point", "coordinates": [0.0, 0.0]}"#);
    assert_eq!(detect_geom_type(&geom), GeomType::Point);
}

#[test]
fn test_detect_geom_type_multipoint() {
    let geom = json(r#"{"type": "MultiPoint", "coordinates": [[0.0, 0.0]]}"#);
    assert_eq!(detect_geom_type(&geom), GeomType::Point);
}

#[test]
fn test_detect_geom_type_linestring() {
    let geom = json(r#"{"type": "LineString", "coordinates": [[0.0, 0.0], [1.0, 1.0]]}"#);
    assert_eq!(detect_geom_type(&geom), GeomType::Linestring);
}

#[test]
fn test_detect_geom_type_polygon() {
    let geom = json(r#"{"type": "Polygon", "coordinates": [[[0.0, 0.0], [1.0, 0.0], [1.0, 1.0], [0.0, 0.0]]]}"#);
    assert_eq!(detect_geom_type(&geom), GeomType::Polygon);
}

#[test]
fn test_detect_geom_type_unknown() {
    let geom = json(r#"{"type": "GeometryCollection"}"#);
    assert_eq!(detect_geom_type(&geom), GeomType::Unknown);
}

#[test]
fn test_detect_geom_type_missing_type() {
    let geom = json(r#"{"coordinates": [0.0, 0.0]}"#);
    assert_eq!(detect_geom_type(&geom), GeomType::Unknown);
}

#[test]
fn test_json_to_mvt_value_string() {
    let val = json_to_mvt_value(&json(r#""hello""#));
    assert_eq!(text_of(&val), Some("hello".to_string()));
    assert_eq!(int_of(&val), None);
    assert_eq!(double_of(&val), None);
    assert_eq!(bool_of(&val), None);
}

#[test]
fn test_json_to_mvt_value_integer() {
    let val = json_to_mvt_value(&json(r#"42"#));
    assert_eq!(int_of(&val), Some(42));
    assert_eq!(text_of(&val), None);
    assert_eq!(double_of(&val), None);
}

#[test]
fn test_json_to_mvt_value_float() {
    let val = json_to_mvt_value(&json(r#"3.14"#));
    assert_eq!(double_of(&val), Some(3.14));
    assert_eq!(int_of(&val), None);
    assert_eq!(text_of(&val), None);
}

#[test]
fn test_json_to_mvt_value_bool_true() {
    let val = json_to_mvt_value(&json(r#"true"#));
    assert_eq!(bool_of(&val), Some(true));
}

#[test]
fn test_json_to_mvt_value_bool_false() {
    let val = json_to_mvt_value(&json(r#"false"#));
    assert_eq!(bool_of(&val), Some(false));
}

#[test]
fn test_json_to_mvt_value_null() {
    let val = json_to_mvt_value(&json(r#"null"#));
    // Null falls through to the catch-all, stored as string
    assert!(text_of(&val).is_some());
}

#[test]
fn test_encode_tile_point_feature() {
    let tile_coord = TileCoord { z: 0, x: 0, y: 0 };
    let feature = FeatureData {
        id: 1,
        geometry: project(&json(r#"{ "type": "Point", "coordinates": [0.0, 0.0] }"#), &tile_coord),
        properties: json(r#"{"name": "test"}"#),
        layer_name: "test_layer".to_string(),
    };

    let mut features_by_layer: FeaturesByLayer = Vec::new();
    features_by_layer.push(("test_layer".to_string(), vec![feature]));

    let result = encode_tile(&tile_coord, &features_by_layer).unwrap();
    // Should produce non-empty gzipped output
    assert!(!result.is_empty());
    // Gzip magic number check
    assert_eq!(result[0], 0x1f);
    assert_eq!(result[1], 0x8b);
}

#[test]
fn test_encode_tile_empty_features() {
    let tile_coord = TileCoord { z: 0, x: 0, y: 0 };
    let features_by_layer: FeaturesByLayer = Vec::new();

    let result = encode_tile(&tile_coord, &features_by_layer).unwrap();
    // Even with no layers, should still produce valid gzipped output (empty tile)
    assert!(!result.is_empty());
}

#[test]
fn test_encode_tile_multiple_properties() {
    let tile_coord = TileCoord {
        z: 10,
        x: 512,
        y: 340,
    };
    let feature = FeatureData {
        id: 42,
        geometry: project(&json(r#"{ "type": "Point", "coordinates": [0.0, 51.5] }"#), &tile_coord),
        properties: json(r#"{"name": "London", "population": 9000000, "capital": true}"#),
        layer_name: "cities".to_string(),
    };

    let mut features_by_layer: FeaturesByLayer = Vec::new();
    features_by_layer.push(("cities".to_string(), vec![feature]));

    let result = encode_tile(&tile_coord, &features_by_layer).unwrap();
    assert!(!result.is_empty());
    // Verify gzip header
    assert_eq!(result[0], 0x1f);
    assert_eq!(result[1], 0x8b);
}

#[test]
fn test_simplify_geometry_point_unchanged() {
    let geom = json(r#"{"type": "Point", "coordinates": [1.0, 2.0]}"#);
    assert!(simplification_input(&geom).is_none());
    let result = simplify_geometry(&geom, 0.1);
    assert_eq!(result.kind, ShapeKind::Point);
    assert_eq!(result.rings, vec![vec![lonlat(1.0, 2.0)]]);
}

#[test]
fn test_simplify_geometry_linestring() {
    // A line with a slight deviation that should be simplified away
    let geom = json(r#"{ "type": "LineString", "coordinates": [[0.0, 0.0], [0.5, 0.001], [1.0, 0.0]] }"#);
    let result = simplify_geometry(&geom, 0.01);
    let coords = &result.rings[0];
    // With tolerance 0.01, the middle point (deviation 0.001) should be removed
    assert_eq!(coords.len(), 2);
}

#[test]
fn test_simplify_geometry_polygon() {
    let geom = json(r#"{ "type": "Polygon", "coordinates": [[[0.0, 0.0], [1.0, 0.0], [1.0, 0.001], [1.0, 1.0], [0.0, 1.0], [0.0, 0.0]]] }"#);
    let result = simplify_geometry(&geom, 0.01);
    let exterior = &result.rings[0];
    // The near-collinear point should be simplified away
    assert!(exterior.len() < 6);
}

#[test]
fn test_compute_excluded_properties_none() {
    let excluded = compute_excluded_properties(None, 5);
    assert!(excluded.is_empty());
}

#[test]
fn test_compute_excluded_properties_below_zoom() {
    let cfg = LayerConfig {
        name: "test".to_string(),
        schema: None,
        table: "test".to_string(),
        geometry_column: None,
        id_column: None,
        srid: None,
        properties: None,
        filter: None,
        geometry_columns: None,
        simplify_tolerance: None,
        property_rules: Some(vec![PropertyRule {
            below_zoom: 10,
            exclude: vec!["description".to_string(), "metadata".to_string()],
        }]),
        generate_label_points: false,
        generate_boundary_lines: false,
    };

    // At zoom 5 (below 10), properties should be excluded
    let excluded = compute_excluded_properties(Some(&cfg), 5);
    assert!(excluded.contains("description"));
    assert!(excluded.contains("metadata"));

    // At zoom 12 (above 10), nothing excluded
    let excluded = compute_excluded_properties(Some(&cfg), 12);
    assert!(excluded.is_empty());
}

#[test]
fn test_encode_tile_with_property_filtering() {
    let tile_coord = TileCoord { z: 5, x: 16, y: 16 };
    let feature = FeatureData {
        id: 1,
        geometry: project(&json(r#"{"type": "Point", "coordinates": [0.0, 0.0]}"#), &tile_coord),
        properties: json(r#"{"name": "test", "description": "long text", "metadata": "extra"}"#),
        layer_name: "layer".to_string(),
    };

    let cfg = LayerConfig {
        name: "layer".to_string(),
        schema: None,
        table: "test".to_string(),
        geometry_column: None,
        id_column: None,
        srid: None,
        properties: None,
        filter: None,
        geometry_columns: None,
        simplify_tolerance: None,
        property_rules: Some(vec![PropertyRule {
            below_zoom: 10,
            exclude: vec!["description".to_string(), "metadata".to_string()],
        }]),
        generate_label_points: false,
        generate_boundary_lines: false,
    };

    let mut features_by_layer: FeaturesByLayer = Vec::new();
    features_by_layer.push(("layer".to_string(), vec![feature]));

    let mut layer_configs: Vec<LayerConfig> = Vec::new();
    layer_configs.push(cfg);

    // At zoom 5, description and metadata should be excluded
    let result = encode_tile_with_config(&tile_coord, &features_by_layer, &layer_configs).unwrap();
    assert!(!result.is_empty());
    // Verify it's valid gzip
    assert_eq!(result[0], 0x1f);
    assert_eq!(result[1], 0x8b);
}

#[test]
fn test_encode_tile_linestring() {
    let geom = json(r#"{ "type": "LineString", "coordinates": [[0.0, 0.0], [10.0, 10.0], [20.0, 0.0]] }"#);
    let result = encode_feature_tile(geom);
    assert!(!result.is_empty());
    assert_eq!(result[0], 0x1f);
}

#[test]
fn test_encode_tile_polygon() {
    let geom = json(r#"{ "type": "Polygon", "coordinates": [[[0.0, 0.0], [10.0, 0.0], [10.0, 10.0], [0.0, 10.0], [0.0, 0.0]]] }"#);
    let result = encode_feature_tile(geom);
    assert!(!result.is_empty());
    assert_eq!(result[0], 0x1f);
}

#[test]
fn test_encode_tile_multipoint() {
    let geom = json(r#"{ "type": "MultiPoint", "coordinates": [[0.0, 0.0], [10.0, 10.0]] }"#);
    let result = encode_feature_tile(geom);
    assert!(!result.is_empty());
}

#[test]
fn test_encode_tile_multilinestring() {
    let geom = json(r#"{ "type": "MultiLineString", "coordinates": [ [[0.0, 0.0], [10.0, 10.0]], [[20.0, 20.0], [30.0, 30.0]] ] }"#);
    let result = encode_feature_tile(geom);
    assert!(!result.is_empty());
}

#[test]
fn test_encode_tile_multipolygon() {
    let geom = json(r#"{ "type": "MultiPolygon", "coordinates": [ [[[0.0, 0.0], [5.0, 0.0], [5.0, 5.0], [0.0, 0.0]]], [[[10.0, 10.0], [15.0, 10.0], [15.0, 15.0], [10.0, 10.0]]] ] }"#);
    let result = encode_feature_tile(geom);
    assert!(!result.is_empty());
}

#[test]
fn test_encode_tile_polygon_with_hole() {
    let geom = json(r#"{ "type": "Polygon", "coordinates": [ [[0.0, 0.0], [20.0, 0.0], [20.0, 20.0], [0.0, 20.0], [0.0, 0.0]], [[5.0, 5.0], [15.0, 5.0], [15.0, 15.0], [5.0, 15.0], [5.0, 5.0]] ] }"#);
    let result = encode_feature_tile(geom);
    assert!(!result.is_empty());
}

#[test]
fn test_encode_tile_unknown_geom_type() {
    let geom = json(r#"{ "type": "GeometryCollection", "geometries": [] }"#);
    // Should produce a tile but with no features (unknown geometry type gives empty commands)
    let tile_coord = TileCoord { z: 0, x: 0, y: 0 };
    let mut features_by_layer: FeaturesByLayer = Vec::new();
    features_by_layer.push(("test".to_string(), vec![make_feature(geom, &tile_coord)]));
    let result = encode_tile(&tile_coord, &features_by_layer).unwrap();
    // Should still be valid gzip even if empty
    assert!(!result.is_empty());
}

#[test]
fn test_encode_tile_empty_coordinates() {
    // Linestring with too few points should produce empty geometry
    let geom = json(r#"{ "type": "LineString", "coordinates": [[0.0, 0.0]] }"#);
    let tile_coord = TileCoord { z: 0, x: 0, y: 0 };
    let mut features_by_layer: FeaturesByLayer = Vec::new();
    features_by_layer.push(("test".to_string(), vec![make_feature(geom, &tile_coord)]));
    let result = encode_tile(&tile_coord, &features_by_layer).unwrap();
    assert!(!result.is_empty());
}

#[test]
fn test_encode_tile_multiple_layers() {
    let tile_coord = TileCoord { z: 5, x: 16, y: 16 };
    let feature_a = FeatureData {
        id: 1,
        geometry: project(&json(r#"{"type": "Point", "coordinates": [0.0, 0.0]}"#), &tile_coord),
        properties: json(r#"{"name": "a"}"#),
        layer_name: "layer_a".to_string(),
    };
    let feature_b = FeatureData {
        id: 2,
        geometry: project(&json(r#"{"type": "Point", "coordinates": [1.0, 1.0]}"#), &tile_coord),
        properties: json(r#"{"type": "b"}"#),
        layer_name: "layer_b".to_string(),
    };

    let mut features_by_layer: FeaturesByLayer = Vec::new();
    features_by_layer.push(("layer_a".to_string(), vec![feature_a]));
    features_by_layer.push(("layer_b".to_string(), vec![feature_b]));

    let result = encode_tile(&tile_coord, &features_by_layer).unwrap();
    assert!(!result.is_empty());
}

#[test]
fn test_value_to_string_variants() {
    assert_eq!(value_to_string(&json(r#""hello""#)), "s:hello");
    assert_eq!(value_to_string(&json(r#"42"#)), "n:42");
    assert_eq!(value_to_string(&json(r#"true"#)), "b:true");
    assert_eq!(value_to_string(&json(r#"null"#)), "o:null");
}

#[test]
fn test_parse_linestring_valid() {
    let coords = json(r#"[[0.0, 0.0], [1.0, 1.0], [2.0, 0.0]]"#);
    let ls = parse_linestring(&coords);
    assert!(ls.is_some());
    assert_eq!(ls.unwrap().len(), 3);
}

#[test]
fn test_parse_linestring_too_few_points() {
    let coords = json(r#"[[0.0, 0.0]]"#);
    assert!(parse_linestring(&coords).is_none());
}

#[test]
fn test_parse_linestring_not_array() {
    let coords = json(r#""not an array""#);
    assert!(parse_linestring(&coords).is_none());
}

#[test]
fn test_parse_linestring_empty() {
    let coords = json(r#"[]"#);
    assert!(parse_linestring(&coords).is_none());
}

#[test]
fn test_parse_polygon_valid() {
    let coords = json(r#"[[[0.0, 0.0], [1.0, 0.0], [1.0, 1.0], [0.0, 0.0]]]"#);
    let poly = parse_polygon(&coords);
    assert!(poly.is_some());
}

#[test]
fn test_parse_polygon_with_hole() {
    let coords = json(r#"[ [[0.0, 0.0], [10.0, 0.0], [10.0, 10.0], [0.0, 0.0]], [[2.0, 2.0], [8.0, 2.0], [8.0, 8.0], [2.0, 2.0]] ]"#);
    let poly = parse_polygon(&coords);
    assert!(poly.is_some());
    assert_eq!(poly.unwrap().len() - 1, 1);
}

#[test]
fn test_parse_polygon_empty_rings() {
    let coords = json(r#"[]"#);
    assert!(parse_polygon(&coords).is_none());
}

#[test]
fn test_parse_polygon_not_array() {
    let coords = json(r#"42"#);
    assert!(parse_polygon(&coords).is_none());
}

#[test]
fn test_simplification_tolerance_none_config() {
    assert_eq!(simplification_tolerance(None, 10, 18), None);
}

#[test]
fn test_simplification_tolerance_no_tolerance_set() {
    let cfg = LayerConfig {
        name: "test".to_string(),
        schema: None,
        table: "test".to_string(),
        geometry_column: None,
        id_column: None,
        srid: None,
        properties: None,
        filter: None,
        geometry_columns: None,
        simplify_tolerance: None,
        property_rules: None,
        generate_label_points: false,
        generate_boundary_lines: false,
    };
    assert_eq!(simplification_tolerance(Some(&cfg), 10, 18), None);
}

#[test]
fn test_simplification_tolerance_scales_by_zoom() {
    let cfg = LayerConfig {
        name: "test".to_string(),
        schema: None,
        table: "test".to_string(),
        geometry_column: None,
        id_column: None,
        srid: None,
        properties: None,
        filter: None,
        geometry_columns: None,
        simplify_tolerance: Some(0.001f64.to_bits()),
        property_rules: None,
        generate_label_points: false,
        generate_boundary_lines: false,
    };

    let low_zoom = scaled(simplification_tolerance(Some(&cfg), 5, 18).unwrap());
    let high_zoom = scaled(simplification_tolerance(Some(&cfg), 15, 18).unwrap());
    // Lower zoom should have higher tolerance (more simplification)
    assert!(low_zoom > high_zoom);
}

#[test]
fn test_simplify_multilinestring() {
    let geom = json(r#"{ "type": "MultiLineString", "coordinates": [ [[0.0, 0.0], [0.5, 0.001], [1.0, 0.0]], [[2.0, 2.0], [2.5, 2.001], [3.0, 2.0]] ] }"#);
    let result = simplify_geometry(&geom, 0.01);
    assert_eq!(result.kind, ShapeKind::MultiLineString);
    let lines = &result.rings;
    // Each line should be simplified
    for line in lines {
        assert_eq!(line.len(), 2);
    }
}

#[test]
fn test_simplify_multipolygon() {
    let geom = json(r#"{ "type": "MultiPolygon", "coordinates": [ [[[0.0, 0.0], [1.0, 0.0], [1.0, 0.001], [1.0, 1.0], [0.0, 1.0], [0.0, 0.0]]] ] }"#);
    let result = simplify_geometry(&geom, 0.01);
    assert_eq!(result.kind, ShapeKind::MultiPolygon);
}

#[test]
fn test_compute_excluded_properties_multiple_rules() {
    let cfg = LayerConfig {
        name: "test".to_string(),
        schema: None,
        table: "test".to_string(),
        geometry_column: None,
        id_column: None,
        srid: None,
        properties: None,
        filter: None,
        geometry_columns: None,
        simplify_tolerance: None,
        property_rules: Some(vec![
            PropertyRule {
                below_zoom: 5,
                exclude: vec!["metadata".to_string()],
            },
            PropertyRule {
                below_zoom: 10,
                exclude: vec!["description".to_string()],
            },
        ]),
        generate_label_points: false,
        generate_boundary_lines: false,
    };

    // At zoom 3 (below both thresholds): both excluded
    let excluded = compute_excluded_properties(Some(&cfg), 3);
    assert!(excluded.contains("metadata"));
    assert!(excluded.contains("description"));

    // At zoom 7 (above 5, below 10): only description excluded
    let excluded = compute_excluded_properties(Some(&cfg), 7);
    assert!(!excluded.contains("metadata"));
    assert!(excluded.contains("description"));

    // At zoom 12 (above both): none excluded
    let excluded = compute_excluded_properties(Some(&cfg), 12);
    assert!(excluded.is_empty());
}

#[test]
fn test_compute_excluded_properties_no_rules() {
    let cfg = LayerConfig {
        name: "test".to_string(),
        schema: None,
        table: "test".to_string(),
        geometry_column: None,
        id_column: None,
        srid: None,
        properties: None,
        filter: None,
        geometry_columns: None,
        simplify_tolerance: None,
        property_rules: None,
        generate_label_points: false,
        generate_boundary_lines: false,
    };

    let excluded = compute_excluded_properties(Some(&cfg), 0);
    assert!(excluded.is_empty());
}

#[test]
fn test_json_to_mvt_value_array() {
    let val = json_to_mvt_value(&json(r#"[1, 2, 3]"#));
    // Arrays fall through to string representation
    assert!(text_of(&val).is_some());
}

#[test]
fn test_json_to_mvt_value_object() {
    let val = json_to_mvt_value(&json(r#"{"key": "value"}"#));
    assert!(text_of(&val).is_some());
}

#[test]
fn test_json_to_mvt_value_negative_integer() {
    let val = json_to_mvt_value(&json(r#"-42"#));
    assert_eq!(int_of(&val), Some(-42));
}

#[test]
fn test_json_to_mvt_value_zero() {
    let val = json_to_mvt_value(&json(r#"0"#));
    assert_eq!(int_of(&val), Some(0));
}

#[test]
fn test_detect_geom_type_multilinestring() {
    let geom = json(r#"{"type": "MultiLineString"}"#);
    assert_eq!(detect_geom_type(&geom), GeomType::Linestring);
}

#[test]
fn test_detect_geom_type_multipolygon() {
    let geom = json(r#"{"type": "MultiPolygon"}"#);
    assert_eq!(detect_geom_type(&geom), GeomType::Polygon);
}

// --- exact commands, layers and bytes ---

fn xy(x: i32, y: i32) -> TileXy {
    TileXy { x, y }
}

fn shape(kind: ShapeKind, rings: Vec<Vec<TileXy>>) -> TileShape {
    TileShape { kind, rings }
}

#[test]
fn line_commands_are_relative_steps() {
    let line = shape(ShapeKind::LineString, vec![vec![xy(2, 2), xy(2, 10), xy(10, 10)]]);
    assert!(line.fits());
    assert_eq!(encode_geometry(&line), vec![9, 4, 4, 18, 0, 16, 16, 0]);
}

#[test]
fn ring_commands_end_with_a_close() {
    let ring = shape(
        ShapeKind::Polygon,
        vec![vec![xy(3, 6), xy(8, 12), xy(20, 34), xy(3, 6)]],
    );
    assert_eq!(encode_geometry(&ring), vec![9, 6, 12, 18, 10, 12, 24, 44, 15]);
    let two = shape(ShapeKind::Polygon, vec![vec![xy(1, 1), xy(1, 1)]]);
    assert_eq!(encode_geometry(&two), vec![9, 2, 2, 15]);
}

#[test]
fn several_points_share_one_command() {
    let points = shape(ShapeKind::MultiPoint, vec![vec![xy(5, 7), xy(3, 2)]]);
    assert_eq!(encode_geometry(&points), vec![17, 10, 14, 3, 9]);
    assert!(encode_geometry(&shape(ShapeKind::MultiPoint, vec![vec![]])).is_empty());
    let point = shape(ShapeKind::Point, vec![vec![xy(25, 17)]]);
    assert_eq!(encode_geometry(&point), vec![9, 50, 34]);
}

#[test]
fn each_line_is_given_from_the_origin() {
    let lines = shape(
        ShapeKind::MultiLineString,
        vec![vec![xy(2, 2), xy(2, 10)], vec![xy(1, 1)], vec![xy(1, 1), xy(3, 5)]],
    );
    assert_eq!(encode_geometry(&lines), vec![9, 4, 4, 10, 0, 16, 9, 2, 2, 10, 4, 8]);
    let lines = shape(
        ShapeKind::MultiLineString,
        vec![vec![xy(0, 0), xy(1, 0)], vec![xy(5, 5), xy(6, 5)]],
    );
    assert_eq!(encode_geometry(&lines), vec![9, 0, 0, 10, 2, 0, 9, 10, 10, 10, 2, 0]);
}

#[test]
fn a_hole_is_given_from_the_origin() {
    let square = vec![xy(11, 11), xy(20, 11), xy(20, 20), xy(11, 20), xy(11, 11)];
    let hole = vec![xy(13, 13), xy(13, 17), xy(17, 17), xy(17, 13), xy(13, 13)];
    let polygon = shape(ShapeKind::Polygon, vec![square, hole]);
    assert!(polygon.fits());
    assert_eq!(
        encode_geometry(&polygon),
        vec![9, 22, 22, 26, 18, 0, 0, 18, 17, 0, 15, 9, 26, 26, 26, 0, 8, 8, 0, 0, 7, 15]
    );
}

/// The parts that a client draws by some commands.
fn draw(words: &[u32]) -> Vec<Vec<(i64, i64)>> {
    let back = |word: u32| (word >> 1) as i64 ^ -((word & 1) as i64);
    let (mut parts, mut at, mut i): (Vec<Vec<(i64, i64)>>, (i64, i64), usize) = (vec![], (0, 0), 0);
    while i < words.len() {
        let (id, count) = (words[i] & 7, words[i] >> 3);
        i += 1;
        for _ in 0..if id == 7 { 0 } else { count } {
            at = (at.0 + back(words[i]), at.1 + back(words[i + 1]));
            i += 2;
            if id == 1 {
                parts.push(vec![]);
            }
            parts.last_mut().unwrap().push(at);
        }
    }
    parts
}

#[test]
fn clients_draw_what_was_given() {
    let line = shape(ShapeKind::LineString, vec![vec![xy(1, 1), xy(3, 5), xy(-4, 0)]]);
    assert_eq!(draw(&encode_geometry(&line)), vec![vec![(1, 1), (3, 5), (-4, 0)]]);
    let ring = shape(ShapeKind::Polygon, vec![vec![xy(3, 6), xy(8, 12), xy(20, 34), xy(3, 6)]]);
    assert_eq!(draw(&encode_geometry(&ring)), vec![vec![(3, 6), (8, 12), (20, 34)]]);
    let points = shape(ShapeKind::MultiPoint, vec![vec![xy(5, 7), xy(3, 2)]]);
    assert_eq!(draw(&encode_geometry(&points)), vec![vec![(5, 7)], vec![(3, 2)]]);
    let back = shape(
        ShapeKind::MultiLineString,
        vec![vec![xy(2, 2), xy(0, 0)], vec![xy(1, 1), xy(3, 5)]],
    );
    assert_eq!(
        draw(&encode_geometry(&back)),
        vec![vec![(2, 2), (0, 0)], vec![(1, 1), (3, 5)]]
    );
}

#[test]
fn huge_steps_do_not_fit() {
    let far = shape(ShapeKind::LineString, vec![vec![xy(i32::MIN, 0), xy(1, 0)]]);
    assert!(!far.fits());
    let near = shape(ShapeKind::LineString, vec![vec![xy(i32::MIN, 0), xy(-1, 0)]]);
    assert!(near.fits());
    let low = vec![xy(i32::MIN, 0), xy(i32::MIN, 1)];
    let high = vec![xy(i32::MAX, 0), xy(i32::MAX, 1)];
    assert!(shape(ShapeKind::MultiLineString, vec![low, high]).fits());
}

#[test]
fn geometries_read_with_zero_for_what_is_missing() {
    let shape = read_geometry(&json(r#"{"type": "LineString", "coordinates": [[1, "x"], 5, [2.5, 3]]}"#));
    assert_eq!(shape.kind, ShapeKind::LineString);
    assert_eq!(shape.rings, vec![vec![lonlat(1.0, 0.0), lonlat(0.0, 0.0), lonlat(2.5, 3.0)]]);
    let point = read_geometry(&json(r#"{"type": "Point"}"#));
    assert_eq!(point.rings, vec![vec![lonlat(0.0, 0.0)]]);
    let polygons = read_geometry(&json(
        r#"{"type": "MultiPolygon", "coordinates": [[[[1, 2]], [[3, 4]]], 7, [[[5, 6]]]]}"#,
    ));
    assert_eq!(
        polygons.rings,
        vec![vec![lonlat(1.0, 2.0)], vec![lonlat(3.0, 4.0)], vec![lonlat(5.0, 6.0)]]
    );
}

#[test]
fn simplification_leaves_out_what_is_not_full() {
    let shape = simplification_input(&json(
        r#"{"type": "Polygon", "coordinates": [[[0, 0], [1, 0], ["a", 1], [0, 0]], [[1, 1]], [[2, 2], [3, 3]]]}"#,
    ))
    .unwrap();
    assert_eq!(shape.rings.len(), 2);
    assert_eq!(shape.rings[0], vec![lonlat(0.0, 0.0), lonlat(1.0, 0.0), lonlat(0.0, 0.0)]);
    assert!(simplification_input(&json(
        r#"{"type": "Polygon", "coordinates": [[[0, 0]], [[2, 2], [3, 3]]]}"#
    ))
    .is_none());
    assert!(simplification_input(&json(r#"{"type": "LineString", "coordinates": [[0, 0]]}"#)).is_none());
    let lines = simplification_input(&json(
        r#"{"type": "MultiLineString", "coordinates": [[[0, 0]], [[2, 2], [3, 3]]]}"#,
    ))
    .unwrap();
    assert_eq!(lines.rings, vec![vec![lonlat(2.0, 2.0), lonlat(3.0, 3.0)]]);
}

#[test]
fn values_that_tiles_have_no_type_for_become_text() {
    assert_eq!(text_of(&json_to_mvt_value(&json("null"))), Some("null".to_string()));
    assert_eq!(text_of(&json_to_mvt_value(&json("[1, 2, 3]"))), Some("[1,2,3]".to_string()));
    assert_eq!(text_of(&json_to_mvt_value(&json(r#"{"key": "value"}"#))), Some(r#"{"key":"value"}"#.to_string()));
    assert_eq!(double_of(&json_to_mvt_value(&json("18446744073709551615"))), Some(18446744073709551615.0));
    assert_eq!(value_to_string(&json("1.5")), "n:1.5");
    assert_eq!(value_to_string(&json("false")), "b:false");
    assert_eq!(value_to_string(&json("[1, {}]")), "o:[1,{}]");
}

fn point_feature(id: i64, properties: &str) -> FeatureData {
    FeatureData {
        id,
        geometry: shape(ShapeKind::Point, vec![vec![xy(25, 17)]]),
        properties: json(properties),
        layer_name: "l".to_string(),
    }
}

#[test]
fn layers_keep_each_key_and_value_once() {
    let empty = FeatureData {
        id: 9,
        geometry: shape(ShapeKind::LineString, vec![vec![xy(1, 1)]]),
        properties: json(r#"{"never": "seen"}"#),
        layer_name: "l".to_string(),
    };
    let features = vec![
        point_feature(1, r#"{"a": "x", "b": 1}"#),
        empty,
        point_feature(-1, r#"{"b": "x", "c": 1}"#),
        point_feature(3, "5"),
    ];
    let layer = build_layer("l", &features, None, 0).unwrap();
    assert_eq!(layer.name, "l");
    assert_eq!(layer.keys, vec!["a", "b", "c"]);
    assert_eq!(layer.values.len(), 2);
    assert_eq!(layer.features.len(), 3);
    assert_eq!(layer.features[0].tags, vec![0, 0, 1, 1]);
    assert_eq!(layer.features[1].tags, vec![1, 0, 2, 1]);
    assert_eq!(layer.features[1].id, u64::MAX);
    assert!(layer.features[2].tags.is_empty());
    assert_eq!(layer.features[0].kind, GeomType::Point);
    assert_eq!(layer.features[0].geometry, vec![9, 50, 34]);
    assert!(build_layer("l", &vec![], None, 0).is_none());
}

#[test]
fn a_tile_has_the_bytes_of_the_wire_format() {
    let tile_coord = TileCoord { z: 0, x: 0, y: 0 };
    let layers: FeaturesByLayer = vec![
        ("none".to_string(), vec![]),
        ("l".to_string(), vec![point_feature(300, r#"{"k": -1, "n": 0.5, "t": true}"#)]),
    ];
    let tile = encode_tile(&tile_coord, &layers).unwrap();
    assert!(is_gzipped(&tile));
    let mut expected: Vec<u8> = vec![];
    // The layer's name.
    expected.extend([0x0a, 1, b'l']);
    // The feature: id 300, six tags, a point, three command words.
    let feature: Vec<u8> = vec![
        0x08, 0xac, 0x02, 0x12, 6, 0, 0, 1, 1, 2, 2, 0x18, 1, 0x22, 3, 9, 50, 34,
    ];
    expected.extend([0x12, feature.len() as u8]);
    expected.extend(&feature);
    for key in [b'k', b'n', b't'] {
        expected.extend([0x1a, 1, key]);
    }
    expected.extend([0x22, 11, 0x20, 0xff, 0xff, 0xff, 0xff, 0xff, 0xff, 0xff, 0xff, 0xff, 0x01]);
    expected.extend([0x22, 9, 0x19]);
    expected.extend(0.5f64.to_le_bytes());
    expected.extend([0x22, 2, 0x38, 1]);
    // The extent and the version.
    expected.extend([0x28, 0x80, 0x20, 0x78, 2]);
    let mut all: Vec<u8> = vec![0x1a, expected.len() as u8];
    all.extend(&expected);
    assert_eq!(gunzip(&tile), all);
}

#[test]
fn excluded_properties_leave_no_tags() {
    let rule = PropertyRule { below_zoom: 10, exclude: vec!["b".to_string(), "b".to_string()] };
    let cfg = LayerConfig {
        name: "l".to_string(),
        schema: None,
        table: "t".to_string(),
        geometry_column: None,
        id_column: None,
        srid: None,
        properties: None,
        filter: None,
        geometry_columns: None,
        simplify_tolerance: Some(2.0f64.to_bits()),
        property_rules: Some(vec![rule]),
        generate_label_points: false,
        generate_boundary_lines: false,
    };
    assert_eq!(compute_excluded_properties(Some(&cfg), 9).len(), 1);
    let features = vec![point_feature(1, r#"{"a": "x", "b": 1}"#)];
    let layer = build_layer("l", &features, Some(&cfg), 9).unwrap();
    assert_eq!(layer.keys, vec!["a"]);
    let layer = build_layer("l", &features, Some(&cfg), 10).unwrap();
    assert_eq!(layer.keys, vec!["a", "b"]);
    assert_eq!(simplification_tolerance(Some(&cfg), 14, 14), Some((2.0f64.to_bits(), 1)));
    assert_eq!(simplification_tolerance(Some(&cfg), 13, 14), Some((2.0f64.to_bits(), 2)));
    assert_eq!(simplification_tolerance(Some(&cfg), 5, 14), Some((2.0f64.to_bits(), 512)));
    assert_eq!(simplification_tolerance(Some(&cfg), 5, 16), Some((2.0f64.to_bits(), 2048)));
    assert_eq!(simplification_tolerance(Some(&cfg), 30, 14), Some((2.0f64.to_bits(), 1)));
    assert_eq!(simplification_tolerance(Some(&cfg), 0, 63), Some((2.0f64.to_bits(), 1 << 63)));
}

#[test]
fn point_commands_lead_to_every_point() {
    let points = vec![xy(5, 7), xy(3, 2), xy(3, 2)];
    assert_eq!(
        encode_geometry(&shape(ShapeKind::MultiPoint, vec![points])),
        vec![command(1, 3), zigzag(5), zigzag(7), zigzag(-2), zigzag(-5), 0, 0]
    );
}

#[test]
fn tags_lead_to_the_properties_of_each_feature() {
    let feature = |id: i64, properties: &str| FeatureData {
        id,
        geometry: shape(ShapeKind::Point, vec![vec![xy(1, 1)]]),
        properties: json(properties),
        layer_name: "shops".to_string(),
    };
    let nothing = FeatureData {
        id: 2,
        geometry: shape(ShapeKind::LineString, vec![vec![xy(1, 1)]]),
        properties: json(r#"{"kind": "unseen"}"#),
        layer_name: "shops".to_string(),
    };
    let features = vec![
        feature(1, r#"{"kind": "bakery", "rank": 3}"#),
        nothing,
        feature(-1, r#"{"name": "bakery", "open": true, "rank": 3.5}"#),
    ];
    let layer = build_layer("shops", &features, None, 10).unwrap();
    assert_eq!(layer.features.len(), 2);
    assert_eq!(layer.features[1].id, u64::MAX);

    let shown = |i: usize| -> Vec<(String, String)> {
        layer.features[i]
            .tags
            .chunks(2)
            .map(|tags| {
                let value = format!("{:?}", layer.values[tags[1] as usize]);
                (layer.keys[tags[0] as usize].clone(), value)
            })
            .collect()
    };
    let pair = |name: &str, value: String| (name.to_string(), value);
    assert_eq!(
        shown(0),
        vec![
            pair("kind", "Text(\"bakery\")".to_string()),
            pair("rank", "Int(3)".to_string())
        ]
    );
    assert_eq!(
        shown(1),
        vec![
            pair("name", "Text(\"bakery\")".to_string()),
            pair("open", "Bool(true)".to_string()),
            pair("rank", format!("Double({})", 3.5f64.to_bits())),
        ]
    );
    // One text is kept once, and nothing is kept for what is not drawn.
    assert_eq!(layer.keys, vec!["kind", "rank", "name", "open"]);
    assert_eq!(layer.values.len(), 4);
}
