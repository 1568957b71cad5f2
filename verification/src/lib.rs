//! Tag-filtered OpenStreetMap extract: interning, compact stores, the
//! preprocessing passes, the cache codec and the query-side bookkeeping.

pub mod api;
pub mod bitmap;
pub mod cache;
pub mod codec;
pub mod compress;
pub mod config;
pub mod dash;
pub mod emit;
pub mod fingerprint;
pub mod fx;
pub mod model;
pub mod passes;
pub mod preprocessor;
pub mod records;
pub mod tag_sets;
pub mod text;
