//! Tile pipeline: turns map features into vector tiles, packs tiles into
//! single-file archives, and decides what to regenerate, serve and publish.
pub mod commands;
pub mod config;
pub mod diff;
pub mod digest;
pub mod events;
pub mod generator;
pub mod inspect;
pub mod json;
pub mod mbtiles;
pub mod metrics;
pub mod mvt;
pub mod order;
pub mod pmtiles;
pub mod postgis;
pub mod refresh;
pub mod server;
pub mod storage;
pub mod text;
pub mod tiles;
pub mod updater;
pub mod validate;
pub mod webhook;
