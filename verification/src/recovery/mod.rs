//! Local recovery: checksummed baselines and segments of the Record Store, what may be made of
//! them, and what is done to keep them up with the live store.
pub mod artifacts;
pub mod plan;
pub mod manager;
pub mod laws;
pub mod files;
pub mod replay;
pub mod duties;
pub mod repair;
