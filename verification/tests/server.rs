//! Serving: entity tags, answers and descriptions.
use tilefeed::config::{
    AppConfig, DatabaseConfig, GenerationBackend, LayerConfig, MetricsConfig, PublishConfig,
    ServeConfig, SourceConfig, TippecanoeConfig, UpdateConfig, WebhookConfig,
};
use tilefeed::server::{
    allowed_origins, etag_text, reply_with_tag, tile_reply, tilejson, to_hex, TileRead, TileReply,
};

#[test]
fn test_to_hex() {
    assert_eq!(to_hex(&[0x00, 0xff, 0xab]), "00ffab");
    assert_eq!(to_hex(&[]), "");
    assert_eq!(to_hex(&[0x01]), "01");
}

#[test]
fn test_build_cors_layer_default() {
    assert_eq!(allowed_origins(&ServeConfig::default()), None);
}

#[test]
fn test_build_cors_layer_with_origins() {
    let config = ServeConfig {
        host: None,
        port: None,
        cors_origins: Some(vec!["http://localhost:3000".to_string()]),
    };
    assert_eq!(allowed_origins(&config), Some(vec!["http://localhost:3000".to_string()]));
}

#[test]
fn test_build_cors_layer_empty_origins() {
    let config = ServeConfig { host: None, port: None, cors_origins: Some(vec![]) };
    // Empty origins should fall through to Any
    assert_eq!(allowed_origins(&config), None);
}

#[test]
fn unknown_sources_and_failed_reads_have_their_status() {
    let reply = tile_reply(TileRead::UnknownSource, None);
    assert_eq!((reply.status(), reply.result_label()), (404, "source_not_found"));
    let reply = tile_reply(TileRead::Failed, Some("*"));
    assert_eq!((reply.status(), reply.result_label()), (500, "error"));
    let reply = tile_reply(TileRead::Read(None), None);
    assert_eq!((reply.status(), reply.result_label()), (204, "empty"));
    assert!(reply.headers().is_empty());
}

#[test]
fn tiles_carry_a_tag_that_saves_the_next_transfer() {
    let data = b"abc".to_vec();
    let reply = tile_reply(TileRead::Read(Some(data.clone())), None);
    assert_eq!((reply.status(), reply.result_label()), (200, "hit"));
    let headers = reply.headers();
    assert_eq!(headers[0], ("content-type".to_string(), "application/x-protobuf".to_string()));
    // The first eight bytes of the digest of "abc".
    assert_eq!(headers[1], ("etag".to_string(), "\"ba7816bf8f01cfea\"".to_string()));
    assert_eq!(headers[2], ("cache-control".to_string(), "public, max-age=300".to_string()));
    assert_eq!(headers.len(), 3);
    for tag in ["\"ba7816bf8f01cfea\"", "*"] {
        let reply = tile_reply(TileRead::Read(Some(data.clone())), Some(tag));
        assert_eq!((reply.status(), reply.result_label()), (304, "not_modified"));
        assert_eq!(reply.headers(), vec![("etag".to_string(), "\"ba7816bf8f01cfea\"".to_string())]);
    }
    assert_eq!(tile_reply(TileRead::Read(Some(data)), Some("\"other\"")).status(), 200);
}

#[test]
fn only_gzipped_tiles_are_called_so() {
    let reply = tile_reply(TileRead::Read(Some(vec![0x1f, 0x8b, 0])), None);
    assert_eq!(reply.headers()[1], ("content-encoding".to_string(), "gzip".to_string()));
    let reply = reply_with_tag(vec![0x1f], "\"t\"".to_string(), None);
    match reply {
        TileReply::Tile { gzipped, etag, data } => {
            assert!(!gzipped);
            assert_eq!(etag, "\"t\"");
            assert_eq!(data, vec![0x1f]);
        }
        _ => panic!("a tile was expected"),
    }
    assert_eq!(etag_text(&[0xab; 32]), "\"abababababababab\"");
}

fn make_test_config() -> AppConfig {
    AppConfig {
        database: DatabaseConfig {
            host: "localhost".to_string(),
            port: 5432,
            user: "postgres".to_string(),
            password: "secret".to_string(),
            dbname: "test".to_string(),
            pool_size: None,
        },
        sources: vec![SourceConfig {
            name: "test_source".to_string(),
            mbtiles_path: "/tmp/test.mbtiles".to_string(),
            min_zoom: 0,
            max_zoom: 14,
            generation_backend: GenerationBackend::default(),
            layers: vec![LayerConfig {
                name: "buildings".to_string(),
                schema: None,
                table: "buildings".to_string(),
                geometry_column: None,
                id_column: None,
                srid: None,
                properties: Some(vec!["name".to_string(), "height".to_string()]),
                filter: None,
                geometry_columns: None,
                simplify_tolerance: None,
                property_rules: None,
                generate_label_points: true,
                generate_boundary_lines: false,
            }],
            tippecanoe: TippecanoeConfig::default(),
        }],
        updates: UpdateConfig::default(),
        publish: PublishConfig::default(),
        tippecanoe_bin: None,
        ogr2ogr_bin: None,
        serve: ServeConfig::default(),
        webhook: WebhookConfig::default(),
        metrics: MetricsConfig::default(),
    }
}

#[test]
fn sources_are_described_with_their_companions() {
    let config = make_test_config();
    let d = tilejson(&config, "test_source").unwrap();
    assert_eq!(d.name, "test_source");
    assert_eq!(d.tiles, "http://127.0.0.1:3000/test_source/{z}/{x}/{y}.pbf");
    assert_eq!((d.minzoom, d.maxzoom), (0, 14));
    let ids: Vec<&str> = d.vector_layers.iter().map(|l| l.id.as_str()).collect();
    assert_eq!(ids, vec!["buildings", "buildings_labels"]);
    assert_eq!(d.vector_layers[1].fields, vec!["name", "height"]);
    assert!(tilejson(&config, "other").is_none());
}
