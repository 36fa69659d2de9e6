//! Metrics in the Prometheus text exposition format.
//!
//! Families are declared up front; label sets are created on first use and stay,
//! so labels must have few values (source names, layer names, fixed result
//! strings, never tile coordinates).
pub mod exposition;
pub mod family;
pub mod registry;
pub mod value;

pub use self::exposition::{bind_addr, escape_help, escape_label, result_label, CONTENT_TYPE};
pub use self::family::Family;
pub use self::registry::Metrics;
pub use self::value::{
    fast_buckets, slow_buckets, Counter, Gauge, GaugeGuard, Histogram, Metric,
};
