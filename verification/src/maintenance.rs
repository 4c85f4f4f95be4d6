//! Maintenance of a store that is not in use.
pub mod final_level;
pub mod laws;
