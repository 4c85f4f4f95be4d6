//! Rollups: downsampled copies of series, kept up to date by a background pass.
pub mod event_laws;
pub mod invalidation;
pub mod laws;
pub mod nested;
pub mod pass;
pub mod pass_laws;
pub mod pipeline;
pub mod recording_laws;
pub mod run_laws;
pub mod sources;
pub mod state;
