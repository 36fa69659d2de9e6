//! The configuration: what to read, where to keep tiles, how to serve and
//! publish them.
use crate::text::{copied, decimal, decimal_text, joined, same_text, texts};
use vstd::prelude::*;

verus! {

/// The whole configuration.
#[derive(Debug, Clone)]
pub struct AppConfig {
    pub database: DatabaseConfig,
    pub sources: Vec<SourceConfig>,
    pub updates: UpdateConfig,
    pub publish: PublishConfig,
    /// Path to the Tippecanoe binary (default: "tippecanoe", resolved via PATH).
    pub tippecanoe_bin: Option<String>,
    /// Path to the ogr2ogr binary (default: "ogr2ogr", resolved via PATH).
    pub ogr2ogr_bin: Option<String>,
    pub serve: ServeConfig,
    pub webhook: WebhookConfig,
    pub metrics: MetricsConfig,
}

#[derive(Debug, Clone)]
pub struct DatabaseConfig {
    pub host: String,
    pub port: u16,
    pub user: String,
    pub password: String,
    pub dbname: String,
    pub pool_size: Option<usize>,
}

#[derive(Debug, Clone, Copy, PartialEq, Eq, Structural)]
pub enum GenerationBackend {
    /// Use Tippecanoe (default, requires tippecanoe binary).
    Tippecanoe,
    /// Use GDAL ogr2ogr (requires ogr2ogr binary).
    Gdal,
    /// Use the built-in encoder (no external dependencies).
    Native,
}

impl Default for GenerationBackend {
    fn default() -> (backend: Self)
        ensures
            backend == GenerationBackend::Tippecanoe,
    {
        GenerationBackend::Tippecanoe
    }
}

#[derive(Debug, Clone)]
pub struct SourceConfig {
    pub name: String,
    pub mbtiles_path: String,
    pub min_zoom: u8,
    pub max_zoom: u8,
    /// Tile generation backend.
    pub generation_backend: GenerationBackend,
    pub layers: Vec<LayerConfig>,
    pub tippecanoe: TippecanoeConfig,
}

/// Tippecanoe's settings. Rates that are not whole numbers are kept as the text
/// that goes on the command line.
#[derive(Debug, Clone)]
pub struct TippecanoeConfig {
    /// Drop the densest features to keep tiles under size limit.
    pub drop_densest_as_needed: Option<bool>,
    /// Drop a fraction of features to keep tiles under size limit.
    pub drop_fraction_as_needed: Option<bool>,
    /// Drop the smallest features to keep tiles under size limit.
    pub drop_smallest_as_needed: Option<bool>,
    /// Coalesce the densest features to keep tiles under size limit.
    pub coalesce_densest_as_needed: Option<bool>,
    /// Continue tiling to higher zooms if features are still being dropped.
    pub extend_zooms_if_still_dropping: Option<bool>,
    /// Rate at which features are dropped at lower zooms (default: 2.5).
    pub drop_rate: Option<String>,
    /// Base zoom level for the drop rate calculation.
    pub base_zoom: Option<u8>,
    /// Simplification factor (in tile units, e.g. 10).
    pub simplification: Option<String>,
    /// Detect shared borders between polygons and simplify them identically.
    pub detect_shared_borders: Option<bool>,
    /// Don't combine very small polygons into pixels.
    pub no_tiny_polygon_reduction: Option<bool>,
    /// Don't limit the number of features per tile (default: 200,000).
    pub no_feature_limit: Option<bool>,
    /// Don't limit tile size (on unless set to false).
    pub no_tile_size_limit: Option<bool>,
    /// Don't compress tile data with gzip.
    pub no_tile_compression: Option<bool>,
    /// Buffer size in pixels around each tile (default: 5).
    pub buffer: Option<u32>,
    /// Detail level at max zoom (default: 12, i.e. 4096 units).
    pub full_detail: Option<u32>,
    /// Detail level at lower zooms (default: 12).
    pub low_detail: Option<u32>,
    /// Detail level below which to drop features (default: equal to low_detail).
    pub minimum_detail: Option<u32>,
    /// Additional raw arguments passed directly to Tippecanoe.
    pub extra_args: Option<Vec<String>>,
}

impl Default for TippecanoeConfig {
    fn default() -> (config: Self)
        ensures
            config == (TippecanoeConfig {
                drop_densest_as_needed: None,
                drop_fraction_as_needed: None,
                drop_smallest_as_needed: None,
                coalesce_densest_as_needed: None,
                extend_zooms_if_still_dropping: None,
                drop_rate: None,
                base_zoom: None,
                simplification: None,
                detect_shared_borders: None,
                no_tiny_polygon_reduction: None,
                no_feature_limit: None,
                no_tile_size_limit: None,
                no_tile_compression: None,
                buffer: None,
                full_detail: None,
                low_detail: None,
                minimum_detail: None,
                extra_args: None,
            }),
    {
        TippecanoeConfig {
            drop_densest_as_needed: None,
            drop_fraction_as_needed: None,
            drop_smallest_as_needed: None,
            coalesce_densest_as_needed: None,
            extend_zooms_if_still_dropping: None,
            drop_rate: None,
            base_zoom: None,
            simplification: None,
            detect_shared_borders: None,
            no_tiny_polygon_reduction: None,
            no_feature_limit: None,
            no_tile_size_limit: None,
            no_tile_compression: None,
            buffer: None,
            full_detail: None,
            low_detail: None,
            minimum_detail: None,
            extra_args: None,
        }
    }
}

#[derive(Debug, Clone)]
pub struct LayerConfig {
    pub name: String,
    pub schema: Option<String>,
    pub table: String,
    pub geometry_column: Option<String>,
    pub id_column: Option<String>,
    pub srid: Option<i32>,
    pub properties: Option<Vec<String>>,
    pub filter: Option<String>,
    pub geometry_columns: Option<Vec<String>>,
    /// Douglas-Peucker simplification tolerance in degrees, as the bits of an
    /// IEEE 754 double. Higher values mean more simplification. It is scaled by
    /// 2^(max_zoom - zoom), with the highest zoom of the source.
    pub simplify_tolerance: Option<u64>,
    /// Properties to leave out at zoom levels below a threshold.
    pub property_rules: Option<Vec<PropertyRule>>,
    /// Generate a companion layer named `{name}_labels` with one point inside
    /// each polygon.
    pub generate_label_points: bool,
    /// Generate a companion layer named `{name}_boundary` with the boundary
    /// line of each polygon.
    pub generate_boundary_lines: bool,
}

#[derive(Debug, Clone)]
pub struct PropertyRule {
    /// Zoom level below which properties are excluded.
    pub below_zoom: u8,
    /// Properties to exclude below the threshold.
    pub exclude: Vec<String>,
}

/// Kind of geometry derived from a polygon layer.
#[derive(Debug, Clone, Copy, PartialEq, Eq, Structural)]
pub enum DerivedGeomType {
    /// A point on the surface, for label placement.
    LabelPoint,
    /// The polygon's boundary as a line.
    BoundaryLine,
}

#[derive(Debug, Clone)]
pub struct UpdateConfig {
    pub debounce_ms: Option<u64>,
    pub worker_concurrency: Option<usize>,
}

impl Default for UpdateConfig {
    fn default() -> (config: Self)
        ensures
            config.debounce_ms == Some(200u64),
            config.worker_concurrency == Some(8usize),
    {
        UpdateConfig { debounce_ms: Some(200), worker_concurrency: Some(8) }
    }
}

#[derive(Debug, Clone, Copy, PartialEq, Eq, Structural)]
pub enum PublishBackend {
    /// Nothing is published.
    Disabled,
    Local,
    S3,
    Mapbox,
    Command,
}

impl Default for PublishBackend {
    fn default() -> (backend: Self)
        ensures
            backend == PublishBackend::Disabled,
    {
        PublishBackend::Disabled
    }
}

#[derive(Debug, Clone)]
pub struct PublishConfig {
    pub backend: PublishBackend,
    pub destination: Option<String>,
    pub command: Option<String>,
    pub args: Option<Vec<String>>,
    pub mapbox_tileset_id: Option<String>,
    pub mapbox_token: Option<String>,
    pub publish_on_generate: Option<bool>,
    pub publish_on_update: Option<bool>,
}

impl Default for PublishConfig {
    fn default() -> (config: Self)
        ensures
            config == (PublishConfig {
                backend: PublishBackend::Disabled,
                destination: None,
                command: None,
                args: None,
                mapbox_tileset_id: None,
                mapbox_token: None,
                publish_on_generate: Some(true),
                publish_on_update: Some(true),
            }),
    {
        PublishConfig {
            backend: PublishBackend::Disabled,
            destination: None,
            command: None,
            args: None,
            mapbox_tileset_id: None,
            mapbox_token: None,
            publish_on_generate: Some(true),
            publish_on_update: Some(true),
        }
    }
}

impl PublishConfig {
    /// Whether to publish after a full generation; yes unless switched off.
    pub fn publish_on_generate_enabled(&self) -> (enabled: bool)
        ensures
            enabled == (self.publish_on_generate != Some(false)),
    {
        self.publish_on_generate.unwrap_or(true)
    }

    /// Whether to publish after an incremental update; yes unless switched off.
    pub fn publish_on_update_enabled(&self) -> (enabled: bool)
        ensures
            enabled == (self.publish_on_update != Some(false)),
    {
        self.publish_on_update.unwrap_or(true)
    }
}

#[derive(Debug, Clone)]
pub struct ServeConfig {
    pub host: Option<String>,
    pub port: Option<u16>,
    pub cors_origins: Option<Vec<String>>,
}

impl Default for ServeConfig {
    fn default() -> (config: Self)
        ensures
            config.host is Some,
            config.host->0@ == "127.0.0.1"@,
            config.port == Some(3000u16),
            config.cors_origins is None,
    {
        ServeConfig { host: Some("127.0.0.1".to_owned()), port: Some(3000), cors_origins: None }
    }
}

impl ServeConfig {
    /// The host to serve on: the configured one, or the loopback address.
    pub open spec fn spec_host(&self) -> Seq<char> {
        match self.host {
            Some(host) => host@,
            None => "127.0.0.1"@,
        }
    }

    /// The port to serve on: the configured one, or 3000.
    pub open spec fn spec_port(&self) -> u16 {
        match self.port {
            Some(port) => port,
            None => 3000,
        }
    }

    /// The host and port to serve on.
    pub fn address(&self) -> (address: (String, u16))
        ensures
            address.0@ == self.spec_host(),
            address.1 == self.spec_port(),
    {
        let host: String = match &self.host {
            Some(host) => host.clone(),
            None => "127.0.0.1".to_owned(),
        };
        (host, self.port.unwrap_or(3000))
    }
}

/// Where to send notifications about finished work.
#[derive(Debug, Clone)]
pub struct WebhookConfig {
    pub urls: Vec<String>,
    pub timeout_ms: Option<u64>,
    pub retry_count: Option<u32>,
    pub on_generate: Option<bool>,
    pub on_update: Option<bool>,
    pub secret: Option<String>,
    pub cooldown_secs: Option<u64>,
}

impl Default for WebhookConfig {
    fn default() -> (config: Self)
        ensures
            config.urls@.len() == 0,
            config.timeout_ms == Some(5000u64),
            config.retry_count == Some(2u32),
            config.on_generate == Some(true),
            config.on_update == Some(true),
            config.secret is None,
            config.cooldown_secs is None,
    {
        WebhookConfig {
            urls: Vec::new(),
            timeout_ms: Some(5000),
            retry_count: Some(2),
            on_generate: Some(true),
            on_update: Some(true),
            secret: None,
            cooldown_secs: None,
        }
    }
}

impl WebhookConfig {
    /// Whether there is anywhere to send to.
    pub fn is_configured(&self) -> (configured: bool)
        ensures
            configured == (self.urls@.len() > 0),
    {
        self.urls.len() > 0
    }

    /// Whether to notify after a full generation; yes unless switched off.
    pub fn on_generate_enabled(&self) -> (enabled: bool)
        ensures
            enabled == (self.on_generate != Some(false)),
    {
        self.on_generate.unwrap_or(true)
    }

    /// Whether to notify after an incremental update; yes unless switched off.
    pub fn on_update_enabled(&self) -> (enabled: bool)
        ensures
            enabled == (self.on_update != Some(false)),
    {
        self.on_update.unwrap_or(true)
    }
}

/// How metrics are exposed.
#[derive(Debug, Clone)]
pub struct MetricsConfig {
    pub enabled: bool,
    pub path: Option<String>,
    pub host: Option<String>,
    pub port: Option<u16>,
}

impl Default for MetricsConfig {
    fn default() -> (config: Self)
        ensures
            config == (MetricsConfig { enabled: true, path: None, host: None, port: None }),
    {
        MetricsConfig { enabled: true, path: None, host: None, port: None }
    }
}

impl MetricsConfig {
    /// The path under which metrics are served: `/metrics` unless configured,
    /// with a leading slash added if missing.
    pub open spec fn spec_path(&self) -> Seq<char> {
        match self.path {
            None => "/metrics"@,
            Some(path) => if path@.len() > 0 && path@[0] == '/' {
                path@
            } else {
                "/"@ + path@
            },
        }
    }

    /// The path under which metrics are served.
    pub fn path(&self) -> (path: String)
        ensures
            path@ == self.spec_path(),
    {
        match &self.path {
            None => "/metrics".to_owned(),
            Some(path) => if path.as_str().unicode_len() > 0 && path.as_str().get_char(0) == '/' {
                path.clone()
            } else {
                joined("/", path.as_str())
            },
        }
    }
}

impl DatabaseConfig {
    /// The connection parameters as one line.
    pub fn connection_string(&self) -> (text: String)
        ensures
            text@ == "host="@ + self.host@ + " port="@ + decimal(self.port as nat) + " user="@
                + self.user@ + " password="@ + self.password@ + " dbname="@ + self.dbname@,
    {
        let mut text: String = "host=".to_owned();
        text.append(self.host.as_str());
        text.append(" port=");
        text.append(decimal_text(self.port as u64).as_str());
        text.append(" user=");
        text.append(self.user.as_str());
        text.append(" password=");
        text.append(self.password.as_str());
        text.append(" dbname=");
        text.append(self.dbname.as_str());
        text
    }
}

/// The name of a layer's label companion.
pub open spec fn labels_name(name: Seq<char>) -> Seq<char> {
    name + "_labels"@
}

/// The name of a layer's boundary companion.
pub open spec fn boundary_name(name: Seq<char>) -> Seq<char> {
    name + "_boundary"@
}

impl LayerConfig {
    /// A name is that of one of the layer's companions.
    pub open spec fn derives(&self, name: Seq<char>) -> bool {
        ||| self.generate_label_points && labels_name(self.name@) == name
        ||| self.generate_boundary_lines && boundary_name(self.name@) == name
    }

    /// A name is the layer's own or that of one of its companions.
    pub open spec fn owns(&self, name: Seq<char>) -> bool {
        self.name@ == name || self.derives(name)
    }

    /// The layer's name and those of its companions.
    pub open spec fn layer_names(&self) -> Seq<Seq<char>> {
        let own = seq![self.name@];
        let labels = if self.generate_label_points {
            seq![labels_name(self.name@)]
        } else {
            Seq::empty()
        };
        let boundary = if self.generate_boundary_lines {
            seq![boundary_name(self.name@)]
        } else {
            Seq::empty()
        };
        own + labels + boundary
    }

    fn is_derived_name(&self, name: &str) -> (derived: bool)
        ensures
            derived == self.derives(name@),
    {
        if self.generate_label_points {
            let labels: String = joined(self.name.as_str(), "_labels");
            if same_text(labels.as_str(), name) {
                return true;
            }
        }
        if self.generate_boundary_lines {
            let boundary: String = joined(self.name.as_str(), "_boundary");
            if same_text(boundary.as_str(), name) {
                return true;
            }
        }
        false
    }

    /// The geometry columns: the list where one is configured, else the single
    /// column, else `geom`.
    pub open spec fn geometry_column_names(&self) -> Seq<Seq<char>> {
        match self.geometry_columns {
            Some(columns) => texts(columns@),
            None => match self.geometry_column {
                Some(column) => seq![column@],
                None => seq!["geom"@],
            },
        }
    }

    /// Get all geometry columns (supports both single and multiple).
    pub fn geometry_columns(&self) -> (columns: Vec<String>)
        ensures
            texts(columns@) == self.geometry_column_names(),
    {
        if let Some(columns) = &self.geometry_columns {
            return copied(columns);
        }
        let column: String = match &self.geometry_column {
            Some(column) => column.clone(),
            None => "geom".to_owned(),
        };
        let mut columns: Vec<String> = Vec::new();
        columns.push(column);
        assert(texts(columns@) =~= self.geometry_column_names());
        columns
    }
}

/// Some layer of a source owns a name.
pub open spec fn source_owns(source: SourceConfig, name: Seq<char>) -> bool {
    exists|i: int| 0 <= i < source.layers@.len() && (#[trigger] source.layers@[i]).owns(name)
}

impl AppConfig {
    fn source_index_for_layer(&self, layer_name: &str) -> (found: Option<usize>)
        ensures
            match found {
                Some(i) => i < self.sources@.len() && source_owns(
                    self.sources@[i as int],
                    layer_name@,
                ) && forall|k: int|
                    0 <= k < i ==> !source_owns(#[trigger] self.sources@[k], layer_name@),
                None => forall|k: int|
                    0 <= k < self.sources@.len() ==> !source_owns(
                        #[trigger] self.sources@[k],
                        layer_name@,
                    ),
            },
    {
        for i in 0..self.sources.len()
            invariant
                forall|k: int|
                    0 <= k < i ==> !source_owns(#[trigger] self.sources@[k], layer_name@),
        {
            let source: &SourceConfig = &self.sources[i];
            for j in 0..source.layers.len()
                invariant
                    i < self.sources@.len(),
                    *source == self.sources@[i as int],
                    forall|k: int|
                        0 <= k < i ==> !source_owns(#[trigger] self.sources@[k], layer_name@),
                    forall|k: int|
                        0 <= k < j ==> !(#[trigger] source.layers@[k]).owns(layer_name@),
            {
                let layer: &LayerConfig = &source.layers[j];
                if same_text(layer.name.as_str(), layer_name) || layer.is_derived_name(
                    layer_name,
                ) {
                    assert(source.layers@[j as int].owns(layer_name@));
                    return Some(i);
                }
            }
        }
        None
    }

    /// Find which source owns a given layer name (including derived layers):
    /// the first that does.
    pub fn find_source_for_layer(&self, layer_name: &str) -> (found: Option<&SourceConfig>)
        ensures
            match found {
                Some(source) => exists|i: int|
                    0 <= i < self.sources@.len() && (#[trigger] self.sources@[i]) == *source
                        && source_owns(self.sources@[i], layer_name@) && forall|k: int|
                        0 <= k < i ==> !source_owns(#[trigger] self.sources@[k], layer_name@),
                None => forall|k: int|
                    0 <= k < self.sources@.len() ==> !source_owns(
                        #[trigger] self.sources@[k],
                        layer_name@,
                    ),
            },
    {
        match self.source_index_for_layer(layer_name) {
            Some(i) => Some(&self.sources[i]),
            None => None,
        }
    }

    /// The address of the standalone metrics exporter: none when metrics are
    /// off or no port is set; the host is that of the tile server unless
    /// configured.
    pub open spec fn spec_metrics_addr(&self) -> Option<(Seq<char>, u16)> {
        if !self.metrics.enabled || self.metrics.port is None {
            None
        } else {
            Some(
                (
                    match self.metrics.host {
                        Some(host) => host@,
                        None => self.serve.spec_host(),
                    },
                    self.metrics.port->0,
                ),
            )
        }
    }

    /// The address of the standalone metrics exporter.
    pub fn metrics_addr(&self) -> (address: Option<(String, u16)>)
        ensures
            match address {
                Some((host, port)) => self.spec_metrics_addr() == Some((host@, port)),
                None => self.spec_metrics_addr() is None,
            },
    {
        if !self.metrics.enabled {
            return None;
        }
        match self.metrics.port {
            None => None,
            Some(port) => {
                let host: String = match &self.metrics.host {
                    Some(host) => host.clone(),
                    None => self.serve.address().0,
                };
                Some((host, port))
            },
        }
    }

    /// Whether the standalone exporter would listen where the tile server does.
    pub fn metrics_addr_is_serve_addr(&self) -> (same: bool)
        ensures
            same == (self.spec_metrics_addr() == Some(
                (self.serve.spec_host(), self.serve.spec_port()),
            )),
    {
        match self.metrics_addr() {
            None => false,
            Some((host, port)) => {
                let (serve_host, serve_port): (String, u16) = self.serve.address();
                same_text(host.as_str(), serve_host.as_str()) && port == serve_port
            },
        }
    }
}

/// The names of some layers and of their companions, in order.
pub open spec fn layer_names(layers: Seq<LayerConfig>) -> Seq<Seq<char>>
    decreases layers.len(),
{
    if layers.len() == 0 {
        Seq::empty()
    } else {
        layer_names(layers.drop_last()) + layers.last().layer_names()
    }
}

impl SourceConfig {
    /// Find a layer by name within this source: the first with the name.
    pub fn find_layer(&self, name: &str) -> (found: Option<&LayerConfig>)
        ensures
            match found {
                Some(layer) => exists|i: int|
                    0 <= i < self.layers@.len() && (#[trigger] self.layers@[i]) == *layer
                        && self.layers@[i].name@ == name@ && forall|k: int|
                        0 <= k < i ==> (#[trigger] self.layers@[k]).name@ != name@,
                None => forall|k: int|
                    0 <= k < self.layers@.len() ==> (#[trigger] self.layers@[k]).name@ != name@,
            },
    {
        for i in 0..self.layers.len()
            invariant
                forall|k: int| 0 <= k < i ==> (#[trigger] self.layers@[k]).name@ != name@,
        {
            if same_text(self.layers[i].name.as_str(), name) {
                return Some(&self.layers[i]);
            }
        }
        None
    }

    /// Find the parent layer that owns a derived layer (e.g. "parks" for
    /// "parks_labels"): the first that does.
    pub fn find_parent_layer_for_derived(&self, derived_name: &str) -> (found: Option<
        &LayerConfig,
    >)
        ensures
            match found {
                Some(layer) => exists|i: int|
                    0 <= i < self.layers@.len() && (#[trigger] self.layers@[i]) == *layer
                        && self.layers@[i].derives(derived_name@) && forall|k: int|
                        0 <= k < i ==> !(#[trigger] self.layers@[k]).derives(derived_name@),
                None => forall|k: int|
                    0 <= k < self.layers@.len() ==> !(#[trigger] self.layers@[k]).derives(
                        derived_name@,
                    ),
            },
    {
        for i in 0..self.layers.len()
            invariant
                forall|k: int| 0 <= k < i ==> !(#[trigger] self.layers@[k]).derives(derived_name@),
        {
            if self.layers[i].is_derived_name(derived_name) {
                return Some(&self.layers[i]);
            }
        }
        None
    }

    /// Get all effective layer names including derived layers.
    pub fn all_layer_names(&self) -> (names: Vec<String>)
        ensures
            texts(names@) == layer_names(self.layers@),
    {
        let mut names: Vec<String> = Vec::new();
        proof {
            assert(self.layers@.take(0) =~= Seq::<LayerConfig>::empty());
            assert(texts(names@) =~= layer_names(self.layers@.take(0)));
        }
        for i in 0..self.layers.len()
            invariant
                texts(names@) == layer_names(self.layers@.take(i as int)),
        {
            let ghost before = texts(names@);
            let layer: &LayerConfig = &self.layers[i];
            names.push(layer.name.clone());
            if layer.generate_label_points {
                names.push(joined(layer.name.as_str(), "_labels"));
            }
            if layer.generate_boundary_lines {
                names.push(joined(layer.name.as_str(), "_boundary"));
            }
            proof {
                assert(self.layers@.take(i + 1).last() == self.layers@[i as int]);
                assert(self.layers@.take(i + 1).drop_last() =~= self.layers@.take(i as int));
                assert(texts(names@) =~= before + layer.layer_names());
            }
        }
        assert(self.layers@.take(self.layers@.len() as int) =~= self.layers@);
        names
    }
}

proof fn lemma_layer_names_contains(layers: Seq<LayerConfig>, i: int, name: Seq<char>)
    requires
        0 <= i < layers.len(),
        layers[i].owns(name),
    ensures
        layer_names(layers).contains(name),
    decreases layers.len(),
{
    let front = layer_names(layers.drop_last());
    let back = layers.last().layer_names();
    let all = layer_names(layers);
    if i == layers.len() - 1 {
        let own = layers[i].name@;
        if own == name {
            assert(back[0] == name);
            assert(all[front.len() as int] == name);
        } else if layers[i].generate_label_points && labels_name(own) == name {
            assert(back[1] == name);
            assert(all[front.len() as int + 1] == name);
        } else {
            assert(back.last() == name);
            assert(all[front.len() + back.len() - 1] == name);
        }
    } else {
        assert(layers.drop_last()[i] == layers[i]);
        lemma_layer_names_contains(layers.drop_last(), i, name);
        let k = choose|k: int| 0 <= k < front.len() && front[k] == name;
        assert(all[k] == name);
    }
}

proof fn lemma_layer_names_owned(layers: Seq<LayerConfig>, name: Seq<char>)
    requires
        layer_names(layers).contains(name),
    ensures
        exists|i: int| 0 <= i < layers.len() && (#[trigger] layers[i]).owns(name),
    decreases layers.len(),
{
    let k = choose|k: int| 0 <= k < layer_names(layers).len() && layer_names(layers)[k] == name;
    if layers.len() > 0 {
        let front = layer_names(layers.drop_last());
        let last = layers.len() - 1;
        if k < front.len() {
            assert(front[k] == name);
            lemma_layer_names_owned(layers.drop_last(), name);
            let i = choose|i: int|
                0 <= i < last && (#[trigger] layers.drop_last()[i]).owns(name);
            assert(layers[i].owns(name));
        } else {
            assert(layers.last().layer_names()[k - front.len()] == name);
            assert(layers[last].owns(name));
        }
    }
}

/// A source owns exactly the names that it lists: a layer is found under a name
/// if and only if the name is among the effective layer names.
pub proof fn lemma_owned_names_are_listed(source: SourceConfig, name: Seq<char>)
    ensures
        source_owns(source, name) <==> layer_names(source.layers@).contains(name),
{
    if source_owns(source, name) {
        let i = choose|i: int|
            0 <= i < source.layers@.len() && (#[trigger] source.layers@[i]).owns(name);
        lemma_layer_names_contains(source.layers@, i, name);
    }
    if layer_names(source.layers@).contains(name) {
        lemma_layer_names_owned(source.layers@, name);
    }
}

/// The effective names of layers are those of the first and then those of the
/// others. A layer gives its own name, and one more for each companion that it has:
/// its name with `_labels`, and its name with `_boundary`.
pub proof fn lemma_layer_names_are_listed_in_order(
    a: Seq<LayerConfig>,
    b: Seq<LayerConfig>,
    layer: LayerConfig,
)
    ensures
        layer_names(a + b) == layer_names(a) + layer_names(b),
        layer_names(seq![layer]).len() == 1 + (if layer.generate_label_points {
            1int
        } else {
            0
        }) + (if layer.generate_boundary_lines {
            1int
        } else {
            0
        }),
        layer_names(seq![layer])[0] == layer.name@,
        layer.generate_label_points ==> layer_names(seq![layer])[1] == layer.name@ + "_labels"@,
        layer.generate_boundary_lines ==> layer_names(seq![layer]).last() == layer.name@
            + "_boundary"@,
    decreases b.len(),
{
    assert(seq![layer].drop_last() =~= Seq::<LayerConfig>::empty());
    assert(layer_names(Seq::<LayerConfig>::empty()) == Seq::<Seq<char>>::empty());
    assert(layer_names(seq![layer]) =~= layer.layer_names());
    if b.len() == 0 {
        assert(a + b =~= a);
        assert(layer_names(a) + layer_names(b) =~= layer_names(a));
    } else {
        lemma_layer_names_are_listed_in_order(a, b.drop_last(), layer);
        assert((a + b).drop_last() =~= a + b.drop_last());
        assert(layer_names(a + b) =~= layer_names(a) + layer_names(b));
    }
}

/// A source has a layer under a name exactly when one of its layers is called so, or
/// has a companion that is.
pub proof fn lemma_source_owns_its_layers(source: SourceConfig, name: Seq<char>)
    ensures
        source_owns(source, name) <==> exists|i: int|
            0 <= i < source.layers@.len() && ({
                let layer = #[trigger] source.layers@[i];
                ||| layer.name@ == name
                ||| layer.generate_label_points && layer.name@ + "_labels"@ == name
                ||| layer.generate_boundary_lines && layer.name@ + "_boundary"@ == name
            }),
        forall|i: int|
            0 <= i < source.layers@.len() ==> ((#[trigger] source.layers@[i]).derives(name) <==> ({
                let layer = source.layers@[i];
                ||| layer.generate_label_points && layer.name@ + "_labels"@ == name
                ||| layer.generate_boundary_lines && layer.name@ + "_boundary"@ == name
            })),
{
}

impl LayerConfig {
    /// The geometry columns are the listed ones, and the single one where none are
    /// listed.
    pub proof fn lemma_geometry_columns(self)
        ensures
            self.geometry_columns matches Some(columns) ==> {
                &&& self.geometry_column_names().len() == columns@.len()
                &&& forall|i: int|
                    0 <= i < columns@.len() ==> #[trigger] self.geometry_column_names()[i]
                        == columns@[i]@
            },
            self.geometry_columns is None ==> self.geometry_column_names().len() == 1,
            self.geometry_columns is None && self.geometry_column is Some
                ==> self.geometry_column_names()[0] == self.geometry_column->0@,
            self.geometry_columns is None && self.geometry_column is None
                ==> self.geometry_column_names()[0] == "geom"@,
    {
    }
}

impl MetricsConfig {
    /// Metrics are served under a path with a leading slash, which is the configured
    /// one where that has it already.
    pub proof fn lemma_path_has_a_leading_slash(self)
        ensures
            self.spec_path().len() > 0,
            self.spec_path()[0] == '/',
            match self.path {
                Some(path) => if path@.len() > 0 && path@[0] == '/' {
                    self.spec_path() == path@
                } else {
                    self.spec_path().skip(1) == path@
                },
                None => self.spec_path() == "/metrics"@,
            },
    {
        reveal_strlit("/");
        reveal_strlit("/metrics");
        if let Some(path) = self.path {
            assert(("/"@ + path@).skip(1) =~= path@);
        }
    }
}

impl AppConfig {
    /// Metrics have an address of their own exactly when they are on and have a port:
    /// that port, on their own host or else where tiles are served.
    pub proof fn lemma_metrics_address(self)
        ensures
            self.spec_metrics_addr() is Some <==> self.metrics.enabled && self.metrics.port is Some,
            self.spec_metrics_addr() matches Some((host, port)) ==> {
                &&& Some(port) == self.metrics.port
                &&& self.metrics.host matches Some(own) ==> host == own@
                &&& self.metrics.host is None && self.serve.host is Some ==> host
                    == self.serve.host->0@
                &&& self.metrics.host is None && self.serve.host is None ==> host == "127.0.0.1"@
            },
            self.serve.port matches Some(port) ==> self.serve.spec_port() == port,
            self.serve.port is None ==> self.serve.spec_port() == 3000,
            self.serve.host matches Some(host) ==> self.serve.spec_host() == host@,
    {
    }
}

} // verus!
