//! The canonical Record Store: issued IDs, Nodes, Properties, Relationships, definitions and the
//! change journal, as one value that operations take from revision to revision.
pub mod keys;
pub mod model;
pub mod operations;
pub mod queries;
pub mod definitions;
pub mod projection;
pub mod recovery;
pub mod frames;
pub mod replaying;
pub mod laws;
pub mod history;
pub mod lifecycle;
pub mod effects;
pub mod reads;
pub mod registry;
pub mod dating;
pub mod runs;
pub mod stable_scan;
pub mod scans;
pub mod schema;
pub mod opening;
