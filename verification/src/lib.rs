//! Genesis Core: the headless six-primitive information engine.
//!
//! Nodes with permanent IDs, their Properties, the Relationships between them, and the definitions
//! of both stand in a canonical Record Store. The Index over them is derived: it can be brought up
//! to date or built anew at any time.
use vstd::prelude::*;

pub mod table;
pub mod text;
pub mod error;
pub mod id;
pub mod node;
pub mod value;
pub mod api;
pub mod codec;
pub mod json;
pub mod cursor;
pub mod paging;
pub mod record_store;
pub mod index;
pub mod recovery;
pub mod security;
pub mod state;
pub mod laws;
pub mod basics;

pub use api::{
    Commit, CursorPage, DefinitionState, DefinitionUsage, DerivedRelationshipInput, GraphEdge,
    GraphNode, GraphProjection, IdentityResolution, IndexRebuildReason, IndexSyncState,
    IndexSyncStatus, IndexedPropertyMatch, IndexedRelationship, Mutation, NewPropertyDefinition,
    NewRelationshipDefinition, PropertyDefinition, PropertyDefinitionUpdate, PropertyFilter,
    PropertyQuery, PropertySort, ReadCursor, ReadPage, ReconcileOutcome, Relationship,
    RelationshipDefinition, RelationshipDefinitionUpdate, RelationshipDirection,
    RelationshipProvenance, SearchDocumentInput, SearchHit,
};
pub use error::{CoreError, CoreErrorCategory};
pub use id::NodeId;
pub use node::{LifecycleState, Node};
pub use record_store::stable_scan::StableReadSnapshot;
pub use recovery::manager::{RecoveryState, RecoveryStatus};
pub use state::{CoreState, CoreStatus, StoreStatus};
pub use value::{JsonText, PropertyValue, PropertyValueKind, RealNumber};

verus! {

/// The directory of a library that holds its databases.
pub const GENESIS_METADATA_DIRECTORY: &'static str = ".genesis";

/// The file of the Record Store.
pub const RECORD_STORE_FILENAME: &'static str = "records.sqlite";

/// The file of the Index.
pub const INDEX_STORE_FILENAME: &'static str = "index.sqlite";

} // verus!
