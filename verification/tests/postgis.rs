//! The database: queries, checks of layers, and the validation report.
use tilefeed::config::{
    AppConfig, DatabaseConfig, DerivedGeomType, GenerationBackend, LayerConfig, MetricsConfig,
    PublishConfig, ServeConfig, SourceConfig, TippecanoeConfig, UpdateConfig, WebhookConfig,
};
use tilefeed::postgis::{
    after_failed_connect, bounds_query, check_query, export_query, feature_collection,
    feature_query, layer_checks, layer_issues, next_check, CheckKind, ConnectStep,
};
use tilefeed::validate::{validation_report, LayerFinding, SourceFinding};

fn layer() -> LayerConfig {
    LayerConfig {
        name: "parks".to_string(),
        schema: None,
        table: "parks_table".to_string(),
        geometry_column: None,
        id_column: None,
        srid: None,
        properties: None,
        filter: None,
        geometry_columns: None,
        simplify_tolerance: None,
        property_rules: None,
        generate_label_points: false,
        generate_boundary_lines: false,
    }
}

fn full_layer() -> LayerConfig {
    LayerConfig {
        schema: Some("gis".to_string()),
        geometry_column: Some("shape".to_string()),
        id_column: Some("gid".to_string()),
        properties: Some(vec!["name".to_string(), "area".to_string()]),
        filter: Some("area > 5".to_string()),
        ..layer()
    }
}

#[test]
fn queries_use_the_defaults() {
    assert_eq!(
        export_query(&layer(), None),
        "SELECT \"id\" as feature_id, ST_AsGeoJSON(ST_Transform(\"geom\", 4326))::json as geometry, \
         row_to_json((SELECT r FROM (SELECT *) r)) as properties \
         FROM \"public\".\"parks_table\" WHERE \"geom\" IS NOT NULL"
    );
}

#[test]
fn queries_use_what_is_configured() {
    let query = export_query(&full_layer(), Some(DerivedGeomType::LabelPoint));
    assert_eq!(
        query,
        "SELECT \"gid\" as feature_id, \
         ST_AsGeoJSON(ST_Transform(ST_PointOnSurface(\"shape\"), 4326))::json as geometry, \
         row_to_json((SELECT r FROM (SELECT \"name\", \"area\") r)) as properties \
         FROM \"gis\".\"parks_table\" WHERE \"shape\" IS NOT NULL AND (area > 5)"
    );
    let query = bounds_query(&full_layer(), Some(DerivedGeomType::BoundaryLine));
    assert!(query.contains("ST_Boundary(\"shape\")"));
    assert!(query.ends_with(
        "WHERE \"shape\" IS NOT NULL AND ST_Intersects(ST_Transform(\"shape\", 4326), \
         ST_MakeEnvelope($1, $2, $3, $4, 4326)) AND (area > 5)"
    ));
    let query = feature_query(&full_layer());
    assert!(query.contains(", ST_XMin(ST_Transform(ST_Envelope(\"shape\"), 4326)) as xmin, ST_YMin("));
    assert!(query.ends_with("WHERE \"gid\" = $1 AND \"shape\" IS NOT NULL AND (area > 5)"));
}

#[test]
fn layers_are_checked_in_order() {
    let mut l = full_layer();
    l.geometry_columns = Some(vec!["a".to_string(), "b".to_string()]);
    let checks = layer_checks(&l);
    let kinds: Vec<(CheckKind, &str)> = checks.iter().map(|c| (c.kind, c.column.as_str())).collect();
    assert_eq!(
        kinds,
        vec![
            (CheckKind::Table, ""),
            (CheckKind::GeometryColumn, "a"),
            (CheckKind::GeometryColumn, "b"),
            (CheckKind::IdColumn, "gid"),
            (CheckKind::PropertyColumn, "name"),
            (CheckKind::PropertyColumn, "area"),
            (CheckKind::Trigger, ""),
        ]
    );
    assert!(check_query(CheckKind::Table).contains("information_schema.tables"));
    assert!(check_query(CheckKind::IdColumn).contains("column_name = $3"));
    assert!(check_query(CheckKind::Trigger).contains("%tile_update%"));
}

#[test]
fn checks_end_with_a_missing_table() {
    let l = full_layer();
    let all = layer_checks(&l);
    let mut answers = vec![];
    while let Some(check) = next_check(&l, &answers) {
        let expected = &all[answers.len()];
        assert_eq!((check.kind, &check.column), (expected.kind, &expected.column));
        answers.push(answers.len() % 2 == 0);
    }
    assert_eq!(answers.len(), all.len());
    assert_eq!(next_check(&l, &vec![]).unwrap().kind, CheckKind::Table);
    assert!(next_check(&l, &vec![false]).is_none());
}

#[test]
fn issues_name_what_is_missing() {
    let l = full_layer();
    assert_eq!(
        layer_issues(&l, &vec![false]),
        vec!["Table \"gis\".\"parks_table\" does not exist"]
    );
    assert!(layer_issues(&l, &vec![true; 6]).is_empty());
    assert_eq!(
        layer_issues(&l, &vec![true, false, false, true, false, false]),
        vec![
            "Geometry column \"shape\" does not exist in \"gis\".\"parks_table\"",
            "ID column \"gid\" does not exist in \"gis\".\"parks_table\"",
            "Property column \"area\" does not exist in \"gis\".\"parks_table\"",
            "No tile_update trigger found on \"gis\".\"parks_table\"",
        ]
    );
}

#[test]
fn connecting_is_tried_again_up_to_a_limit() {
    assert_eq!(after_failed_connect(1, 3), ConnectStep::Wait { secs: 2 });
    assert_eq!(after_failed_connect(2, 3), ConnectStep::Wait { secs: 4 });
    assert_eq!(after_failed_connect(3, 3), ConnectStep::GiveUp);
    assert_eq!(after_failed_connect(9, 30), ConnectStep::Wait { secs: 32 });
}

fn config(layers: Vec<LayerConfig>) -> AppConfig {
    AppConfig {
        database: DatabaseConfig {
            host: "h".to_string(),
            port: 1,
            user: "u".to_string(),
            password: "p".to_string(),
            dbname: "d".to_string(),
            pool_size: None,
        },
        sources: vec![SourceConfig {
            name: "city".to_string(),
            mbtiles_path: "city.mbtiles".to_string(),
            min_zoom: 0,
            max_zoom: 14,
            generation_backend: GenerationBackend::Native,
            layers,
            tippecanoe: TippecanoeConfig::default(),
        }],
        updates: UpdateConfig::default(),
        publish: PublishConfig::default(),
        tippecanoe_bin: None,
        ogr2ogr_bin: None,
        serve: ServeConfig::default(),
        webhook: WebhookConfig::default(),
        metrics: MetricsConfig::default(),
    }
}

#[test]
fn a_valid_configuration_passes() {
    let findings = vec![SourceFinding {
        missing_parent: None,
        layers: vec![LayerFinding::Checked(vec![])],
    }];
    let (lines, valid) = validation_report(&config(vec![layer()]), &findings);
    assert!(valid);
    assert_eq!(
        lines,
        vec![
            "Source: city",
            "  MBTiles path: city.mbtiles",
            "  Zoom range: 0 - 14",
            "  Layer: parks (table: public.parks_table)",
            "    OK",
            "",
            "All validations passed.",
        ]
    );
}

#[test]
fn every_problem_is_reported() {
    let findings = vec![SourceFinding {
        missing_parent: Some("/nowhere".to_string()),
        layers: vec![
            LayerFinding::Checked(vec!["one".to_string(), "two".to_string()]),
            LayerFinding::Failed("no connection".to_string()),
        ],
    }];
    let (lines, valid) = validation_report(&config(vec![full_layer(), layer()]), &findings);
    assert!(!valid);
    assert_eq!(
        lines[3..],
        [
            "  WARNING: MBTiles parent directory does not exist: /nowhere",
            "  Layer: parks (table: gis.parks_table)",
            "    ISSUE: one",
            "    ISSUE: two",
            "    Filter: area > 5",
            "  Layer: parks (table: public.parks_table)",
            "    ERROR: Failed to validate: no connection",
            "",
            "Some validations failed. See issues above.",
        ]
    );
}

#[test]
fn rows_make_a_feature_collection() {
    assert_eq!(
        feature_collection(vec![]).unwrap(),
        r#"{"features":[],"type":"FeatureCollection"}"#
    );
    let json = |text: &str| serde_json::from_str::<serde_json::Value>(text).unwrap();
    let features = vec![
        (7, json(r#"{"type":"Point","coordinates":[1.5,2.0]}"#), json(r#"{"name":"a \"b\""}"#)),
        (i64::MIN, json("null"), json("{}")),
    ];
    assert_eq!(
        feature_collection(features).unwrap(),
        [
            r#"{"features":[{"geometry":{"coordinates":[1.5,2.0],"type":"Point"},"id":7,"#,
            r#""properties":{"name":"a \"b\""},"type":"Feature"},"#,
            r#"{"geometry":null,"id":-9223372036854775808,"properties":{},"type":"Feature"}],"#,
            r#""type":"FeatureCollection"}"#,
        ]
        .concat()
    );
}
