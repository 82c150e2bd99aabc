//! Nodes.
use vstd::prelude::*;
use crate::id::NodeId;

verus! {

/// Whether a Node can be changed, or only restored or purged.
#[derive(Debug, Clone, Copy, PartialEq, Eq, Structural)]
pub enum LifecycleState {
    Active,
    Tombstoned,
}

/// Minimal Core Node representation. Semantic fields belong to Properties,
/// Relationships, or capabilities rather than this struct.
#[derive(Debug, Clone, Copy, PartialEq, Eq)]
pub struct Node {
    pub id: NodeId,
    pub lifecycle_state: LifecycleState,
}

impl Node {
    /// An active Node with a new ID.
    pub fn blank() -> (r: Node)
        ensures
            r.id.valid(),
            r.lifecycle_state == LifecycleState::Active,
    {
        Node { id: NodeId::new(), lifecycle_state: LifecycleState::Active }
    }
}

} // verus!
