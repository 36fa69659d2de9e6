//! Incremental updates: notifications, batches, queries and reports.
use std::collections::HashMap;
use tilefeed::config::{
    AppConfig, DatabaseConfig, DerivedGeomType, GenerationBackend, LayerConfig, MetricsConfig,
    PublishConfig, ServeConfig, SourceConfig, TippecanoeConfig, UpdateConfig, WebhookConfig,
};
use tilefeed::events::TileEvent;
use tilefeed::mvt::{FeatureData, FeaturesByLayer, ShapeKind, TileShape};
use tilefeed::tiles::TileCoord;
use tilefeed::updater::{
    add_layer_features, debounce, feature_lookups, group_by_source, layer_requests, parse_batch,
    parse_notification, reconnect_delay_secs, tile_write, update_from_json, update_from_text,
    update_report, worker_count, DebounceStep, NotificationError, TileWrite, UpdateEvent,
};

#[test]
fn test_parse_notification_json_minimal() {
    let payload = r#"{"layer": "buildings", "id": 42}"#;
    let event = parse_notification(payload).unwrap();
    assert_eq!(event.layer_name, "buildings");
    assert_eq!(event.feature_id, 42);
    assert!(event.old_bounds.is_none());
}

#[test]
fn test_parse_notification_json_with_old_bounds() {
    let payload = r#"{"layer": "roads", "id": 7, "old_bounds": {"min_lon": -0.5, "min_lat": 51.0, "max_lon": 0.5, "max_lat": 52.0}}"#;
    let event = parse_notification(payload).unwrap();
    assert_eq!(event.layer_name, "roads");
    assert_eq!(event.feature_id, 7);
    let bounds = event.old_bounds.unwrap();
    assert!((f64::from_bits(bounds.min_lon) - (-0.5)).abs() < 1e-6);
    assert!((f64::from_bits(bounds.min_lat) - 51.0).abs() < 1e-6);
    assert!((f64::from_bits(bounds.max_lon) - 0.5).abs() < 1e-6);
    assert!((f64::from_bits(bounds.max_lat) - 52.0).abs() < 1e-6);
}

#[test]
fn test_parse_notification_simple_format() {
    let payload = "water:123";
    let event = parse_notification(payload).unwrap();
    assert_eq!(event.layer_name, "water");
    assert_eq!(event.feature_id, 123);
    assert!(event.old_bounds.is_none());
}

#[test]
fn test_parse_notification_simple_negative_id() {
    let event = parse_notification("layer:-1").unwrap();
    assert_eq!(event.feature_id, -1);
}

#[test]
fn test_parse_notification_invalid_format() {
    let result = parse_notification("no_colon_here");
    assert!(result.is_err());
}

#[test]
fn test_parse_notification_invalid_id() {
    let result = parse_notification("layer:not_a_number");
    assert!(result.is_err());
}

#[test]
fn test_parse_notification_json_missing_layer() {
    let payload = r#"{"id": 42}"#;
    let result = parse_notification(payload);
    assert!(result.is_err());
}

#[test]
fn test_parse_notification_json_missing_id() {
    let payload = r#"{"layer": "test"}"#;
    let result = parse_notification(payload);
    assert!(result.is_err());
}

#[test]
fn test_parse_notification_empty_string() {
    let result = parse_notification("");
    assert!(result.is_err());
}

#[test]
fn test_parse_notification_json_large_id() {
    let payload = r#"{"layer": "test", "id": 9999999999}"#;
    let event = parse_notification(payload).unwrap();
    assert_eq!(event.feature_id, 9999999999);
}

#[test]
fn test_parse_notification_json_old_bounds_partial() {
    // old_bounds with missing fields should default to 0.0
    let payload = r#"{"layer": "test", "id": 1, "old_bounds": {"min_lon": 5.0}}"#;
    let event = parse_notification(payload).unwrap();
    let bounds = event.old_bounds.unwrap();
    assert!((f64::from_bits(bounds.min_lon) - 5.0).abs() < 1e-6);
    assert!((f64::from_bits(bounds.min_lat) - 0.0).abs() < 1e-6);
}

#[test]
fn notifications_name_what_is_wrong() {
    assert_eq!(parse_notification("42").unwrap_err(), NotificationError::MissingLayer);
    assert_eq!(
        parse_notification(r#"{"layer": "a", "id": 1.5}"#).unwrap_err(),
        NotificationError::MissingId
    );
    assert_eq!(parse_notification("nothing").unwrap_err(), NotificationError::Format);
    assert_eq!(parse_notification("a:").unwrap_err(), NotificationError::InvalidId);
    assert_eq!(parse_notification("a:+").unwrap_err(), NotificationError::InvalidId);
    assert_eq!(parse_notification("a:1:2").unwrap_err(), NotificationError::InvalidId);
    assert_eq!(parse_notification("a:+7").unwrap().feature_id, 7);
    assert_eq!(parse_notification(":-9223372036854775808").unwrap().feature_id, i64::MIN);
    assert_eq!(parse_notification("a:9223372036854775807").unwrap().feature_id, i64::MAX);
    assert_eq!(
        parse_notification("a:9223372036854775808").unwrap_err(),
        NotificationError::InvalidId
    );
    assert_eq!(
        parse_notification("a:-9223372036854775809").unwrap_err(),
        NotificationError::InvalidId
    );
    assert_eq!(parse_notification("a:00000000000000000000012").unwrap().feature_id, 12);
}

#[test]
fn notifications_can_be_read_in_either_form() {
    let json = serde_json::from_str(r#"{"layer": "a", "id": 3, "old_bounds": null}"#).unwrap();
    let event = update_from_json(&json).unwrap();
    let bounds = event.old_bounds.unwrap();
    assert_eq!((bounds.min_lon, bounds.max_lat), (0, 0));
    assert_eq!(update_from_text("b:5").unwrap().layer_name, "b");
}

fn layer(name: &str, labels: bool, boundary: bool) -> LayerConfig {
    LayerConfig {
        name: name.to_string(),
        schema: None,
        table: name.to_string(),
        geometry_column: None,
        id_column: None,
        srid: None,
        properties: None,
        filter: None,
        geometry_columns: None,
        simplify_tolerance: None,
        property_rules: None,
        generate_label_points: labels,
        generate_boundary_lines: boundary,
    }
}

fn source(name: &str, layers: Vec<LayerConfig>) -> SourceConfig {
    SourceConfig {
        name: name.to_string(),
        mbtiles_path: format!("{}.mbtiles", name),
        min_zoom: 0,
        max_zoom: 14,
        generation_backend: GenerationBackend::Native,
        layers,
        tippecanoe: TippecanoeConfig::default(),
    }
}

fn config(sources: Vec<SourceConfig>) -> AppConfig {
    AppConfig {
        database: DatabaseConfig {
            host: "h".to_string(),
            port: 1,
            user: "u".to_string(),
            password: "p".to_string(),
            dbname: "d".to_string(),
            pool_size: None,
        },
        sources,
        updates: UpdateConfig::default(),
        publish: PublishConfig::default(),
        tippecanoe_bin: None,
        ogr2ogr_bin: None,
        serve: ServeConfig::default(),
        webhook: WebhookConfig::default(),
        metrics: MetricsConfig::default(),
    }
}

fn change(layer: &str, id: i64) -> UpdateEvent {
    UpdateEvent { layer_name: layer.to_string(), feature_id: id, old_bounds: None }
}

#[test]
fn batches_keep_what_can_be_read() {
    let payloads = ["a:1", "bad", "b:2", r#"{"id": 1}"#].map(String::from).to_vec();
    let (events, rejected) = parse_batch(&payloads);
    assert_eq!(events.len(), 2);
    assert_eq!(events[1].layer_name, "b");
    assert_eq!(
        rejected,
        vec![(1, NotificationError::Format), (3, NotificationError::MissingLayer)]
    );
}

#[test]
fn changes_go_to_the_source_of_their_layer() {
    let config = config(vec![
        source("one", vec![layer("a", true, false)]),
        source("two", vec![layer("b", false, false)]),
        source("one", vec![layer("c", false, false)]),
    ]);
    let events = vec![
        change("b", 1),
        change("x", 2),
        change("a", 3),
        change("b", 4),
        change("a_labels", 5),
        change("c", 6),
    ];
    let (batches, unknown) = group_by_source(&config, &events);
    assert_eq!(unknown, vec![1]);
    let found: HashMap<usize, Vec<usize>> =
        batches.iter().map(|b| (b.source, b.events.clone())).collect();
    assert_eq!(batches[0].source, 1);
    assert_eq!(found[&1], vec![0, 3]);
    // A change of "c" goes to the first source of the same name.
    assert_eq!(found[&0], vec![2, 4, 5]);
    assert_eq!(batches.len(), 2);
}

#[test]
fn lookups_skip_companion_layers() {
    let s = source("one", vec![layer("a", true, true), layer("b", false, false)]);
    let events = vec![change("b", 1), change("a_labels", 2), change("a", 3)];
    let found = feature_lookups(&s, &events, &vec![0, 1, 2]);
    let pairs: Vec<(usize, i64)> = found.iter().map(|l| (l.layer, l.feature_id)).collect();
    assert_eq!(pairs, vec![(1, 1), (0, 3)]);
}

#[test]
fn tiles_take_a_query_for_each_layer_and_companion() {
    let s = source("one", vec![layer("a", true, true), layer("b", false, true)]);
    let requests = layer_requests(&s);
    let names: Vec<&str> = requests.iter().map(|r| r.name.as_str()).collect();
    assert_eq!(names, vec!["a", "a_labels", "a_boundary", "b", "b_boundary"]);
    assert_eq!(requests[1].derived, Some(DerivedGeomType::LabelPoint));
    assert_eq!(requests[4].derived, Some(DerivedGeomType::BoundaryLine));
    assert_eq!((requests[0].derived, requests[4].layer), (None, 1));
}

fn feature(id: i64) -> FeatureData {
    FeatureData {
        id,
        geometry: TileShape { kind: ShapeKind::Unknown, rings: vec![] },
        properties: serde_json::Value::Null,
        layer_name: "l".to_string(),
    }
}

#[test]
fn answers_replace_a_layer_of_the_same_name() {
    let mut layers: FeaturesByLayer = Vec::new();
    add_layer_features(&mut layers, "a", vec![feature(1)]);
    add_layer_features(&mut layers, "b", vec![]);
    add_layer_features(&mut layers, "c", vec![feature(2)]);
    add_layer_features(&mut layers, "a", vec![feature(3), feature(4)]);
    add_layer_features(&mut layers, "c", vec![]);
    assert_eq!(layers.len(), 2);
    assert_eq!(layers[0].0, "a");
    assert_eq!(layers[0].1.len(), 2);
    assert_eq!(layers[1].1[0].id, 2);
}

#[test]
fn updates_report_zooms_and_layers_once() {
    let s = source("one", vec![]);
    let t = |z, x, y| TileCoord { z, x, y };
    let tiles = vec![t(14, 1, 1), t(3, 0, 0), t(14, 2, 2)];
    let events = vec![change("b", 1), change("a", 2), change("b", 3), change("z", 4)];
    match update_report(&s, &tiles, &events, &vec![0, 1, 2]) {
        TileEvent::UpdateComplete { source, tiles_updated, affected_zooms, max_zoom, layers_affected } => {
            assert_eq!(source, "one");
            assert_eq!(tiles_updated, 3);
            assert_eq!(affected_zooms, vec![3, 14]);
            assert_eq!(max_zoom, 14);
            assert_eq!(layers_affected, vec!["b", "a"]);
        }
        _ => panic!("wrong event"),
    }
}

#[test]
fn empty_tiles_are_deleted() {
    let t = TileCoord { z: 1, x: 0, y: 0 };
    assert_eq!(tile_write(t, None), TileWrite::Delete(t));
    assert_eq!(tile_write(t, Some(vec![1])), TileWrite::Put(t, vec![1]));
}

#[test]
fn waits_grow_up_to_a_minute() {
    let waits: Vec<u64> = (1..9).map(reconnect_delay_secs).collect();
    assert_eq!(waits, vec![2, 4, 8, 16, 32, 60, 60, 60]);
    assert_eq!(debounce(1200, 1000), DebounceStep::Collect { remaining_ms: 200 });
    assert_eq!(debounce(1200, 1200), DebounceStep::Process);
    assert_eq!(debounce(1200, 9000), DebounceStep::Process);
    let mut c = config(vec![]);
    assert_eq!(worker_count(&c), 8);
    c.updates.worker_concurrency = Some(0);
    assert_eq!(worker_count(&c), 1);
    c.updates.worker_concurrency = None;
    assert_eq!(worker_count(&c), 8);
}
