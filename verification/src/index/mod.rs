//! The derived Index: what queries, backlinks, the graph and search read, rebuilt from the Record
//! Store at any time and brought up to date by its journal.
pub mod model;
pub mod projection;
pub mod content;
pub mod query;
pub mod nodes;
pub mod links;
pub mod graph;
pub mod search;
pub mod schema;
pub mod laws;
pub mod reads;
pub mod picture;
pub mod material;
