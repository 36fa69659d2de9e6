//! Vector tiles: features in tile coordinates, as layers of commands and tags.
pub mod geometry;
pub mod layer;
pub mod properties;
pub mod reading;
pub mod tile;

pub use crate::pmtiles::gzip::is_gzipped;
pub use self::geometry::{
    command, detect_geom_type, encode_geometry, parse_linestring, parse_polygon, read_geometry,
    simplification_input, zigzag, GeomType, LonLat, ShapeKind, TileShape, TileXy, WorldShape,
};
pub use self::layer::{
    build_layer, compute_excluded_properties, json_to_mvt_value, value_to_string,
    ExcludedProperties, FeatureData, TileFeature, TileLayer, TileValue,
};
pub use self::tile::{
    encode_tile, encode_tile_with_config, simplification_tolerance, FeaturesByLayer, TileError,
    EXTENT,
};
