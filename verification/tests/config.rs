//! Configuration: defaults, lookups and derived names.
use tilefeed::config::{
    AppConfig, DatabaseConfig, GenerationBackend, LayerConfig, MetricsConfig, PublishBackend,
    PublishConfig, ServeConfig, SourceConfig, TippecanoeConfig, UpdateConfig, WebhookConfig,
};

fn sample_layer(name: &str) -> LayerConfig {
    LayerConfig {
        name: name.to_string(),
        schema: None,
        table: format!("{}_table", name),
        geometry_column: None,
        id_column: None,
        srid: None,
        properties: None,
        filter: None,
        geometry_columns: None,
        simplify_tolerance: None,
        property_rules: None,
        generate_label_points: false,
        generate_boundary_lines: false,
    }
}

fn sample_source(name: &str, layer_names: &[&str]) -> SourceConfig {
    SourceConfig {
        name: name.to_string(),
        mbtiles_path: format!("/tmp/{}.mbtiles", name),
        min_zoom: 0,
        max_zoom: 14,
        generation_backend: GenerationBackend::default(),
        layers: layer_names.iter().map(|l| sample_layer(l)).collect(),
        tippecanoe: TippecanoeConfig::default(),
    }
}

fn sample_config(sources: Vec<SourceConfig>) -> AppConfig {
    AppConfig {
        database: DatabaseConfig {
            host: "localhost".to_string(),
            port: 5432,
            user: "postgres".to_string(),
            password: "secret".to_string(),
            dbname: "testdb".to_string(),
            pool_size: None,
        },
        sources,
        updates: UpdateConfig::default(),
        publish: PublishConfig::default(),
        tippecanoe_bin: None,
        ogr2ogr_bin: None,
        serve: ServeConfig::default(),
        webhook: WebhookConfig::default(),
        metrics: MetricsConfig::default(),
    }
}

// --- find_source_for_layer tests ---

#[test]
fn test_find_source_for_layer_found() {
    let config = sample_config(vec![
        sample_source("source_a", &["buildings", "roads"]),
        sample_source("source_b", &["water", "land"]),
    ]);

    let result = config.find_source_for_layer("water");
    assert!(result.is_some());
    assert_eq!(result.unwrap().name, "source_b");
}

#[test]
fn test_find_source_for_layer_first_source() {
    let config = sample_config(vec![
        sample_source("source_a", &["buildings", "roads"]),
        sample_source("source_b", &["water"]),
    ]);

    let result = config.find_source_for_layer("buildings");
    assert!(result.is_some());
    assert_eq!(result.unwrap().name, "source_a");
}

#[test]
fn test_find_source_for_layer_not_found() {
    let config = sample_config(vec![sample_source("source_a", &["buildings"])]);

    let result = config.find_source_for_layer("nonexistent");
    assert!(result.is_none());
}

#[test]
fn test_find_source_for_layer_empty_sources() {
    let config = sample_config(vec![]);

    let result = config.find_source_for_layer("anything");
    assert!(result.is_none());
}

// --- SourceConfig::find_layer tests ---

#[test]
fn test_find_layer_found() {
    let source = sample_source("src", &["buildings", "roads", "water"]);

    let result = source.find_layer("roads");
    assert!(result.is_some());
    assert_eq!(result.unwrap().name, "roads");
}

#[test]
fn test_find_layer_not_found() {
    let source = sample_source("src", &["buildings"]);

    let result = source.find_layer("missing");
    assert!(result.is_none());
}

#[test]
fn test_find_layer_empty_layers() {
    let source = sample_source("src", &[]);

    let result = source.find_layer("anything");
    assert!(result.is_none());
}

// --- PublishConfig defaults ---

#[test]
fn test_publish_config_defaults() {
    let config = PublishConfig::default();

    assert!(matches!(config.backend, PublishBackend::Disabled));
    assert_eq!(config.destination, None);
    assert_eq!(config.command, None);
    assert_eq!(config.args, None);
    assert_eq!(config.publish_on_generate, Some(true));
    assert_eq!(config.publish_on_update, Some(true));
}

#[test]
fn test_publish_on_generate_enabled_default() {
    let config = PublishConfig::default();
    assert!(config.publish_on_generate_enabled());
}

#[test]
fn test_publish_on_generate_enabled_explicit_false() {
    let config = PublishConfig {
        publish_on_generate: Some(false),
        ..PublishConfig::default()
    };
    assert!(!config.publish_on_generate_enabled());
}

#[test]
fn test_publish_on_update_enabled_default() {
    let config = PublishConfig::default();
    assert!(config.publish_on_update_enabled());
}

#[test]
fn test_publish_on_update_enabled_none() {
    let config = PublishConfig {
        publish_on_update: None,
        ..PublishConfig::default()
    };
    // None defaults to true
    assert!(config.publish_on_update_enabled());
}

// --- UpdateConfig defaults ---

#[test]
fn test_update_config_defaults() {
    let config = UpdateConfig::default();
    assert_eq!(config.debounce_ms, Some(200));
    assert_eq!(config.worker_concurrency, Some(8));
}

// --- DatabaseConfig::connection_string tests ---

#[test]
fn test_connection_string_format() {
    let db = DatabaseConfig {
        host: "db.example.com".to_string(),
        port: 5433,
        user: "admin".to_string(),
        password: "p@ss".to_string(),
        dbname: "mydb".to_string(),
        pool_size: Some(10),
    };

    let conn_str = db.connection_string();
    assert_eq!(
        conn_str,
        "host=db.example.com port=5433 user=admin password=p@ss dbname=mydb"
    );
}

#[test]
fn test_connection_string_default_port() {
    let db = DatabaseConfig {
        host: "localhost".to_string(),
        port: 5432,
        user: "postgres".to_string(),
        password: "".to_string(),
        dbname: "tiles".to_string(),
        pool_size: None,
    };

    let conn_str = db.connection_string();
    assert!(conn_str.contains("host=localhost"));
    assert!(conn_str.contains("port=5432"));
    assert!(conn_str.contains("user=postgres"));
    assert!(conn_str.contains("dbname=tiles"));
}

// --- ServeConfig defaults ---

#[test]
fn test_serve_config_defaults() {
    let config = ServeConfig::default();
    assert_eq!(config.host, Some("127.0.0.1".to_string()));
    assert_eq!(config.port, Some(3000));
    assert_eq!(config.cors_origins, None);
}

// --- GenerationBackend defaults ---

#[test]
fn test_generation_backend_default_is_tippecanoe() {
    let backend = GenerationBackend::default();
    assert!(matches!(backend, GenerationBackend::Tippecanoe));
}

// --- find_source_for_layer with derived layers ---

#[test]
fn test_find_source_for_label_layer() {
    let mut source = sample_source("src", &["parks"]);
    source.layers[0].generate_label_points = true;
    let config = sample_config(vec![source]);

    let result = config.find_source_for_layer("parks_labels");
    assert!(result.is_some());
    assert_eq!(result.unwrap().name, "src");
}

#[test]
fn test_find_source_for_boundary_layer() {
    let mut source = sample_source("src", &["parks"]);
    source.layers[0].generate_boundary_lines = true;
    let config = sample_config(vec![source]);

    let result = config.find_source_for_layer("parks_boundary");
    assert!(result.is_some());
    assert_eq!(result.unwrap().name, "src");
}

#[test]
fn test_find_source_for_derived_layer_not_enabled() {
    let source = sample_source("src", &["parks"]);
    let config = sample_config(vec![source]);

    assert!(config.find_source_for_layer("parks_labels").is_none());
    assert!(config.find_source_for_layer("parks_boundary").is_none());
}

// --- SourceConfig::find_parent_layer_for_derived ---

#[test]
fn test_find_parent_layer_for_labels() {
    let mut source = sample_source("src", &["parks", "water"]);
    source.layers[0].generate_label_points = true;

    let parent = source.find_parent_layer_for_derived("parks_labels");
    assert!(parent.is_some());
    assert_eq!(parent.unwrap().name, "parks");
}

#[test]
fn test_find_parent_layer_for_boundary() {
    let mut source = sample_source("src", &["parks"]);
    source.layers[0].generate_boundary_lines = true;

    let parent = source.find_parent_layer_for_derived("parks_boundary");
    assert!(parent.is_some());
    assert_eq!(parent.unwrap().name, "parks");
}

#[test]
fn test_find_parent_layer_for_derived_not_found() {
    let source = sample_source("src", &["parks"]);
    assert!(source.find_parent_layer_for_derived("parks_labels").is_none());
    assert!(source.find_parent_layer_for_derived("nonexistent_labels").is_none());
}

// --- SourceConfig::all_layer_names ---

#[test]
fn test_all_layer_names_no_derived() {
    let source = sample_source("src", &["buildings", "roads"]);
    let names = source.all_layer_names();
    assert_eq!(names, vec!["buildings", "roads"]);
}

#[test]
fn test_all_layer_names_with_derived() {
    let mut source = sample_source("src", &["parks", "water"]);
    source.layers[0].generate_label_points = true;
    source.layers[0].generate_boundary_lines = true;
    source.layers[1].generate_label_points = true;

    let names = source.all_layer_names();
    assert_eq!(
        names,
        vec!["parks", "parks_labels", "parks_boundary", "water", "water_labels"]
    );
}

#[test]
fn test_all_layer_names_empty() {
    let source = sample_source("src", &[]);
    let names = source.all_layer_names();
    assert!(names.is_empty());
}

// --- LayerConfig::geometry_columns ---

#[test]
fn test_geometry_columns_default() {
    let layer = sample_layer("test");
    let cols = layer.geometry_columns();
    assert_eq!(cols, vec!["geom".to_string()]);
}

#[test]
fn test_geometry_columns_single_override() {
    let mut layer = sample_layer("test");
    layer.geometry_column = Some("the_geom".to_string());
    let cols = layer.geometry_columns();
    assert_eq!(cols, vec!["the_geom".to_string()]);
}

#[test]
fn test_geometry_columns_multiple() {
    let mut layer = sample_layer("test");
    layer.geometry_columns = Some(vec!["geom".to_string(), "geom_simplified".to_string()]);
    let cols = layer.geometry_columns();
    assert_eq!(cols, vec!["geom".to_string(), "geom_simplified".to_string()]);
}

// --- PublishBackend ---

#[test]
fn test_publish_backend_default_is_none() {
    let backend = PublishBackend::default();
    assert!(matches!(backend, PublishBackend::Disabled));
}

// --- SourceConfig::find_layer edge cases ---

#[test]
fn test_find_layer_does_not_match_derived_names() {
    let mut source = sample_source("src", &["parks"]);
    source.layers[0].generate_label_points = true;

    // find_layer only matches actual layer names, not derived
    assert!(source.find_layer("parks_labels").is_none());
    assert!(source.find_layer("parks").is_some());
}

// --- metrics and webhook settings ---

#[test]
fn metrics_path_gets_a_leading_slash() {
    let mut config = MetricsConfig::default();
    assert_eq!(config.path(), "/metrics");
    config.path = Some("internal".to_string());
    assert_eq!(config.path(), "/internal");
    config.path = Some("/m".to_string());
    assert_eq!(config.path(), "/m");
    config.path = Some(String::new());
    assert_eq!(config.path(), "/");
}

#[test]
fn metrics_address_falls_back_to_the_serve_host() {
    let mut config = sample_config(vec![]);
    assert_eq!(config.metrics_addr(), None);
    assert!(!config.metrics_addr_is_serve_addr());
    config.metrics.port = Some(3000);
    assert_eq!(config.metrics_addr(), Some(("127.0.0.1".to_string(), 3000)));
    assert!(config.metrics_addr_is_serve_addr());
    config.metrics.host = Some("0.0.0.0".to_string());
    assert_eq!(config.metrics_addr(), Some(("0.0.0.0".to_string(), 3000)));
    assert!(!config.metrics_addr_is_serve_addr());
    config.metrics.enabled = false;
    assert_eq!(config.metrics_addr(), None);
}

#[test]
fn webhook_defaults() {
    let mut config = WebhookConfig::default();
    assert!(!config.is_configured());
    assert!(config.on_generate_enabled());
    assert!(config.on_update_enabled());
    assert_eq!(config.timeout_ms, Some(5000));
    assert_eq!(config.retry_count, Some(2));
    config.urls.push("http://localhost/hook".to_string());
    config.on_update = Some(false);
    config.on_generate = None;
    assert!(config.is_configured());
    assert!(config.on_generate_enabled());
    assert!(!config.on_update_enabled());
}

#[test]
fn serve_address_has_defaults() {
    let config = ServeConfig { host: None, port: None, cors_origins: None };
    assert_eq!(config.address(), ("127.0.0.1".to_string(), 3000));
}

#[test]
fn first_of_several_owners_is_found() {
    let mut a = sample_source("a", &["parks"]);
    a.layers[0].generate_label_points = true;
    let b = sample_source("b", &["parks_labels"]);
    let config = sample_config(vec![a, b]);
    assert_eq!(config.find_source_for_layer("parks_labels").unwrap().name, "a");
}

#[test]
fn tippecanoe_defaults_are_unset() {
    let t = TippecanoeConfig::default();
    assert_eq!(t.drop_rate, None);
    assert_eq!(t.extra_args, None);
    assert_eq!(t.no_tile_size_limit, None);
}
