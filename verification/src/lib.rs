//! Maintenance core of an embedded time-series store.
pub mod compactor;
pub mod concurrency;
pub mod error;
pub mod maintenance;
pub mod models;
pub mod registry_catalog;
pub mod rollups;
pub mod segment;
pub mod series;
pub mod sorting;
pub mod text;
pub mod text_map;
