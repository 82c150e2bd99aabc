//! What derived stores read of the Record Store: all of it, or what changed since a revision.
use vstd::prelude::*;
use crate::api::{Relationship, RelationshipView};
use crate::id::NodeId;
use crate::record_store::model::{
    changes_view, ChangeKind, ChangeRow, ChangeView, NodeRow, NodeRowView, Present,
    PropertyDefinitionRow, PropertyDefinitionRowView, RecordModel, RecordStore,
    RelationshipDefinitionRow, RelationshipDefinitionRowView, RelationshipRow,
};
use crate::table::{lookup, slot_of, Slot, Table};

verus! {

/// How many revisions the journal keeps at least.
pub const RECORD_CHANGE_RETENTION_REVISIONS: u64 = 1_024;

/// All that derived stores read of a Record Store.
pub struct ProjectionSnapshot {
    pub revision: u64,
    pub nodes: Table<NodeId, NodeRow>,
    pub relationships: Table<Relationship, RelationshipRow>,
    pub property_definitions: Table<String, PropertyDefinitionRow>,
    pub relationship_definitions: Table<String, RelationshipDefinitionRow>,
}

impl ProjectionSnapshot {
    /// The invariant: every table is in order.
    pub open spec fn wf(&self) -> bool {
        &&& self.nodes.wf()
        &&& self.relationships.wf()
        &&& self.property_definitions.wf()
        &&& self.relationship_definitions.wf()
    }

    /// Whether this is all of a Record Store with this content.
    pub open spec fn shows(&self, m: RecordModel) -> bool {
        &&& self.revision == m.revision
        &&& self.nodes@ == m.nodes
        &&& self.relationships@ == m.relationships
        &&& self.property_definitions@ == m.property_definitions
        &&& self.relationship_definitions@ == m.relationship_definitions
    }
}

/// What became, up to one revision, of everything that changed after another one.
pub struct ProjectionPatch {
    pub from_revision: u64,
    pub target_revision: u64,
    pub change_count: usize,
    pub issued_node_ids: Table<NodeId, Present>,
    pub nodes: Table<NodeId, Slot<NodeRow>>,
    pub relationships: Table<Relationship, Slot<RelationshipRow>>,
    pub property_definitions: Table<String, Slot<PropertyDefinitionRow>>,
    pub relationship_definitions: Table<String, Slot<RelationshipDefinitionRow>>,
}

/// A patch, its tables taken as sets and maps.
#[verifier::ext_equal]
pub struct PatchView {
    pub from_revision: u64,
    pub target_revision: u64,
    pub change_count: nat,
    pub issued: Set<NodeId>,
    pub nodes: Map<NodeId, Option<NodeRowView>>,
    pub relationships: Map<RelationshipView, Option<RelationshipRow>>,
    pub property_definitions: Map<Seq<char>, Option<PropertyDefinitionRowView>>,
    pub relationship_definitions: Map<Seq<char>, Option<RelationshipDefinitionRowView>>,
}

impl View for ProjectionPatch {
    type V = PatchView;

    open spec fn view(&self) -> PatchView {
        PatchView {
            from_revision: self.from_revision,
            target_revision: self.target_revision,
            change_count: self.change_count as nat,
            issued: self.issued_node_ids@.dom(),
            nodes: self.nodes@,
            relationships: self.relationships@,
            property_definitions: self.property_definitions@,
            relationship_definitions: self.relationship_definitions@,
        }
    }
}

impl ProjectionPatch {
    /// The invariant: every table is in order.
    pub open spec fn wf(&self) -> bool {
        &&& self.issued_node_ids.wf()
        &&& self.nodes.wf()
        &&& self.relationships.wf()
        &&& self.property_definitions.wf()
        &&& self.relationship_definitions.wf()
        &&& slots_keyed(self.property_definitions@, self.relationship_definitions@)
    }
}

/// Whether every definition that is still there stands under its own key.
pub open spec fn slots_keyed(
    property_definitions: Map<Seq<char>, Option<PropertyDefinitionRowView>>,
    relationship_definitions: Map<Seq<char>, Option<RelationshipDefinitionRowView>>,
) -> bool {
    &&& forall|k: Seq<char>| #[trigger]
        property_definitions.dom().contains(k) && property_definitions[k] is Some
            ==> property_definitions[k]->0.definition.key == k
    &&& forall|k: Seq<char>| #[trigger]
        relationship_definitions.dom().contains(k) && relationship_definitions[k] is Some
            ==> relationship_definitions[k]->0.definition.key == k
}

/// What the journal tells since a revision.
pub enum JournalDelta {
    /// Nothing changed.
    Current(u64),
    /// What changed.
    Available(ProjectionPatch),
    /// The journal does not reach back to that revision, or cannot be read.
    Unavailable { current_revision: u64 },
}

/// What the journal tells since a revision, patches taken by their view.
pub enum DeltaView {
    Current(u64),
    Available(PatchView),
    Unavailable { current_revision: u64 },
}

impl View for JournalDelta {
    type V = DeltaView;

    open spec fn view(&self) -> DeltaView {
        match self {
            JournalDelta::Current(revision) => DeltaView::Current(*revision),
            JournalDelta::Available(patch) => DeltaView::Available(patch@),
            JournalDelta::Unavailable { current_revision } => DeltaView::Unavailable {
                current_revision: *current_revision,
            },
        }
    }
}

/// Whether a change is of a kind that names a Node and nothing else that can change.
pub open spec fn is_node_change(kind: ChangeKind) -> bool {
    kind is NodeCreated || kind is NodeTombstoned || kind is NodeRestored || kind is NodePurged
        || kind is PropertySet || kind is PropertyRemoved
}

/// Whether a change adds or removes a Relationship.
pub open spec fn is_relationship_change(kind: ChangeKind) -> bool {
    kind is RelationshipAdded || kind is RelationshipRemoved
}

/// Whether a change is one of a Property definition.
pub open spec fn is_property_definition_change(kind: ChangeKind) -> bool {
    kind is PropertyDefinitionRegistered || kind is PropertyDefinitionUpdated
        || kind is PropertyDefinitionDeprecated || kind is PropertyDefinitionRemoved
}

/// Whether a change is one of a Relationship definition.
pub open spec fn is_relationship_definition_change(kind: ChangeKind) -> bool {
    kind is RelationshipDefinitionRegistered || kind is RelationshipDefinitionUpdated
        || kind is RelationshipDefinitionDeprecated || kind is RelationshipDefinitionRemoved
}

/// Whether a journal entry names all that its kind of change concerns.
pub open spec fn readable(c: ChangeView) -> bool {
    if is_node_change(c.kind) {
        c.node_id is Some
    } else if is_relationship_change(c.kind) {
        c.node_id is Some && c.definition_key is Some && c.target is Some
    } else if is_property_definition_change(c.kind) || is_relationship_definition_change(c.kind) {
        c.definition_key is Some
    } else {
        false
    }
}

/// Whether a change concerns a Node: it names it, or it concerns a Relationship of it.
pub open spec fn concerns_node(c: ChangeView, id: NodeId) -> bool {
    ||| is_node_change(c.kind) && c.node_id == Some(id)
    ||| is_relationship_change(c.kind) && (c.node_id == Some(id) || c.target == Some(id))
}

/// Whether a change says that an ID is issued.
pub open spec fn concerns_issued(c: ChangeView, id: NodeId) -> bool {
    (c.kind is NodeCreated || c.kind is NodePurged) && c.node_id == Some(id)
}

/// Whether a change adds or removes this Relationship.
pub open spec fn concerns_relationship(c: ChangeView, r: RelationshipView) -> bool {
    is_relationship_change(c.kind) && c.node_id == Some(r.source) && c.definition_key == Some(r.key)
        && c.target == Some(r.target)
}

/// Whether a change is one of this Property definition.
pub open spec fn concerns_property_definition(c: ChangeView, key: Seq<char>) -> bool {
    is_property_definition_change(c.kind) && c.definition_key == Some(key)
}

/// Whether a change is one of this Relationship definition.
pub open spec fn concerns_relationship_definition(c: ChangeView, key: Seq<char>) -> bool {
    is_relationship_definition_change(c.kind) && c.definition_key == Some(key)
}

/// The Nodes that some of these changes concern.
pub open spec fn nodes_in(changes: Seq<ChangeView>) -> Set<NodeId> {
    Set::new(
        |id: NodeId|
            exists|i: int| 0 <= i < changes.len() && concerns_node(#[trigger] changes[i], id),
    )
}

/// The IDs that some of these changes say are issued.
pub open spec fn issued_in(changes: Seq<ChangeView>) -> Set<NodeId> {
    Set::new(
        |id: NodeId|
            exists|i: int| 0 <= i < changes.len() && concerns_issued(#[trigger] changes[i], id),
    )
}

/// The Relationships that some of these changes concern.
pub open spec fn relationships_in(changes: Seq<ChangeView>) -> Set<RelationshipView> {
    Set::new(
        |r: RelationshipView|
            exists|i: int|
                0 <= i < changes.len() && concerns_relationship(#[trigger] changes[i], r),
    )
}

/// The Property definitions that some of these changes concern.
pub open spec fn property_definitions_in(changes: Seq<ChangeView>) -> Set<Seq<char>> {
    Set::new(
        |k: Seq<char>|
            exists|i: int|
                0 <= i < changes.len() && concerns_property_definition(#[trigger] changes[i], k),
    )
}

/// The Relationship definitions that some of these changes concern.
pub open spec fn relationship_definitions_in(changes: Seq<ChangeView>) -> Set<Seq<char>> {
    Set::new(
        |k: Seq<char>|
            exists|i: int|
                0 <= i < changes.len() && concerns_relationship_definition(
                    #[trigger] changes[i],
                    k,
                ),
    )
}

/// What each of these keys has now.
pub open spec fn slots<K, V>(keys: Set<K>, rows: Map<K, V>) -> Map<K, Option<V>> {
    Map::new(|k: K| keys.contains(k), |k: K| lookup(rows, k))
}

/// What became of everything that these changes concern.
pub open spec fn patch_of(m: RecordModel, checkpoint: u64, changes: Seq<ChangeView>) -> PatchView {
    PatchView {
        from_revision: checkpoint,
        target_revision: m.revision,
        change_count: changes.len(),
        issued: issued_in(changes),
        nodes: slots(nodes_in(changes), m.nodes),
        relationships: slots(relationships_in(changes), m.relationships),
        property_definitions: slots(property_definitions_in(changes), m.property_definitions),
        relationship_definitions: slots(
            relationship_definitions_in(changes),
            m.relationship_definitions,
        ),
    }
}

/// The journal entries after a revision.
pub open spec fn changes_after(journal: Seq<ChangeView>, checkpoint: u64) -> Seq<ChangeView> {
    journal.filter(|c: ChangeView| c.revision > checkpoint)
}

/// Whether the revisions of these changes run from the one after `checkpoint` to `current`
/// without a gap.
pub open spec fn contiguous(changes: Seq<ChangeView>, checkpoint: u64, current: u64) -> bool {
    &&& changes.len() > 0
    &&& changes[0].revision == checkpoint + 1
    &&& changes.last().revision == current
    &&& forall|i: int, j: int|
        0 <= i && j == i + 1 && j < changes.len() ==> (#[trigger] changes[i]).revision <= (
        #[trigger] changes[j]).revision <= changes[i].revision + 1
}

/// What the journal of a store tells since a revision.
pub open spec fn delta_since(m: RecordModel, checkpoint: u64) -> DeltaView {
    let changes = changes_after(m.journal, checkpoint);
    if checkpoint == m.revision {
        DeltaView::Current(m.revision)
    } else if checkpoint > m.revision || !contiguous(changes, checkpoint, m.revision) || exists|
        i: int,
    |
        0 <= i < changes.len() && !readable(#[trigger] changes[i]) {
        DeltaView::Unavailable { current_revision: m.revision }
    } else {
        DeltaView::Available(patch_of(m, checkpoint, changes))
    }
}

/// Whether the revisions of these changes run without a gap.
fn journal_is_contiguous(changes: &Vec<&ChangeRow>, checkpoint: u64, current_revision: u64) -> (r:
    bool)
    requires
        checkpoint < current_revision,
    ensures
        r == contiguous(refs_view(changes@), checkpoint, current_revision),
{
    let ghost views = refs_view(changes@);
    if changes.len() == 0 {
        return false;
    }
    if changes[0].revision != checkpoint + 1 || changes[changes.len() - 1].revision
        != current_revision {
        return false;
    }
    let mut i: usize = 0;
    while i < changes.len() - 1
        invariant
            views == refs_view(changes@),
            i < changes@.len(),
            forall|j: int, k: int|
                0 <= j && k == j + 1 && k <= i ==> (#[trigger] views[j]).revision <= (
                #[trigger] views[k]).revision <= views[j].revision + 1,
        decreases changes@.len() - i,
    {
        let this: u64 = changes[i].revision;
        let next: u64 = changes[i + 1].revision;
        proof {
            assert(views[i as int].revision == this && views[i + 1].revision == next);
        }
        if next < this || next - this > 1 {
            return false;
        }
        i = i + 1;
    }
    true
}

/// The views of a run of references to journal entries.
pub open spec fn refs_view(changes: Seq<&ChangeRow>) -> Seq<ChangeView> {
    Seq::new(changes.len(), |i: int| changes[i]@)
}

/// Whether a journal entry names all that its kind of change concerns.
fn is_readable(c: &ChangeRow) -> (r: bool)
    ensures
        r == readable(c@),
{
    match c.kind {
        ChangeKind::NodeCreated | ChangeKind::NodeTombstoned | ChangeKind::NodeRestored
        | ChangeKind::NodePurged | ChangeKind::PropertySet | ChangeKind::PropertyRemoved =>
            c.node_id.is_some(),
        ChangeKind::RelationshipAdded | ChangeKind::RelationshipRemoved => c.node_id.is_some()
            && c.definition_key.is_some() && c.target.is_some(),
        ChangeKind::Unknown => false,
        _ => c.definition_key.is_some(),
    }
}

impl RecordStore {
    /// The revision of the latest commit.
    pub fn current_revision(&self) -> (r: u64)
        ensures
            r == self@.revision,
    {
        self.revision
    }

    /// All that derived stores read.
    pub fn projection_snapshot(&self) -> (r: ProjectionSnapshot)
        requires
            self.wf(),
        ensures
            r.wf(),
            r.shows(self@),
    {
        ProjectionSnapshot {
            revision: self.revision,
            nodes: self.nodes.copy(),
            relationships: self.relationships.copy(),
            property_definitions: self.property_definitions.copy(),
            relationship_definitions: self.relationship_definitions.copy(),
        }
    }

    /// The journal entries after a revision.
    pub fn recent_changes(&self, checkpoint: u64) -> (r: Vec<&ChangeRow>)
        ensures
            refs_view(r@) == changes_after(self@.journal, checkpoint),
    {
        let ghost recent = |c: ChangeView| c.revision > checkpoint;
        let ghost all = self@.journal;
        let mut r: Vec<&ChangeRow> = Vec::new();
        let mut i: usize = 0;
        proof {
            assert(all.subrange(0, 0).filter(recent) =~= Seq::<ChangeView>::empty()) by {
                reveal(Seq::filter);
            }
            assert(refs_view(r@) =~= all.subrange(0, 0).filter(recent));
        }
        while i < self.journal.len()
            invariant
                recent == (|c: ChangeView| c.revision > checkpoint),
                all == changes_view(self.journal@),
                i <= self.journal@.len(),
                refs_view(r@) == all.subrange(0, i as int).filter(recent),
            decreases self.journal@.len() - i,
        {
            let change = &self.journal[i];
            let ghost seen = r@;
            proof {
                assert(all.subrange(0, i + 1) =~= all.subrange(0, i as int).push(change@));
                all.subrange(0, i as int).lemma_filter_push(change@, recent);
            }
            if change.revision > checkpoint {
                r.push(change);
                proof {
                    assert(refs_view(r@) =~= refs_view(seen).push(change@));
                }
            }
            i = i + 1;
        }
        proof {
            assert(all.subrange(0, i as int) =~= all);
        }
        r
    }

    /// What the journal tells since a revision.
    #[verifier::rlimit(40)]
    pub fn projection_delta_since(&self, checkpoint: u64) -> (r: JournalDelta)
        requires
            self.wf(),
        ensures
            r@ == delta_since(self@, checkpoint),
            r is Available ==> r->Available_0.wf(),
    {
        let current_revision: u64 = self.revision;
        if checkpoint == current_revision {
            return JournalDelta::Current(current_revision);
        }
        if checkpoint > current_revision {
            return JournalDelta::Unavailable { current_revision };
        }
        let changes = self.recent_changes(checkpoint);
        if !journal_is_contiguous(&changes, checkpoint, current_revision) {
            return JournalDelta::Unavailable { current_revision };
        }
        let ghost views = refs_view(changes@);
        let mut patch = ProjectionPatch {
            from_revision: checkpoint,
            target_revision: current_revision,
            change_count: changes.len(),
            issued_node_ids: Table::new(),
            nodes: Table::new(),
            relationships: Table::new(),
            property_definitions: Table::new(),
            relationship_definitions: Table::new(),
        };
        let mut i: usize = 0;
        proof {
            let none = views.subrange(0, 0);
            assert(patch.issued_node_ids@.dom() =~= issued_in(none));
            assert(patch.nodes@ =~= slots(nodes_in(none), self@.nodes));
            assert(patch.relationships@ =~= slots(relationships_in(none), self@.relationships));
            assert(patch.property_definitions@ =~= slots(
                property_definitions_in(none),
                self@.property_definitions,
            ));
            assert(patch.relationship_definitions@ =~= slots(
                relationship_definitions_in(none),
                self@.relationship_definitions,
            ));
        }
        while i < changes.len()
            invariant
                self.wf(),
                checkpoint < self@.revision,
                current_revision == self@.revision,
                i <= changes@.len(),
                views == refs_view(changes@),
                views == changes_after(self@.journal, checkpoint),
                contiguous(views, checkpoint, current_revision),
                forall|j: int| 0 <= j < i ==> readable(#[trigger] views[j]),
                patch.wf(),
                patch.from_revision == checkpoint,
                patch.target_revision == current_revision,
                patch.change_count == views.len(),
                patch.issued_node_ids@.dom() == issued_in(views.subrange(0, i as int)),
                patch.nodes@ == slots(nodes_in(views.subrange(0, i as int)), self@.nodes),
                patch.relationships@ == slots(
                    relationships_in(views.subrange(0, i as int)),
                    self@.relationships,
                ),
                patch.property_definitions@ == slots(
                    property_definitions_in(views.subrange(0, i as int)),
                    self@.property_definitions,
                ),
                patch.relationship_definitions@ == slots(
                    relationship_definitions_in(views.subrange(0, i as int)),
                    self@.relationship_definitions,
                ),
            decreases changes@.len() - i,
        {
            let change = changes[i];
            proof {
                assert(views[i as int] == change@);
            }
            if !is_readable(change) {
                return JournalDelta::Unavailable { current_revision };
            }
            self.add_change(&mut patch, change, Ghost(views.subrange(0, i as int)));
            i = i + 1;
            proof {
                assert(views.subrange(0, i as int) =~= views.subrange(0, i - 1).push(change@));
            }
        }
        proof {
            assert(views.subrange(0, i as int) =~= views);
        }
        JournalDelta::Available(patch)
    }

    /// Adds to a patch what became of everything that one more change concerns.
    #[verifier::rlimit(40)]
    fn add_change(
        &self,
        patch: &mut ProjectionPatch,
        change: &ChangeRow,
        Ghost(before): Ghost<Seq<ChangeView>>,
    )
        requires
            self.wf(),
            old(patch).wf(),
            readable(change@),
            old(patch).issued_node_ids@.dom() == issued_in(before),
            old(patch).nodes@ == slots(nodes_in(before), self@.nodes),
            old(patch).relationships@ == slots(relationships_in(before), self@.relationships),
            old(patch).property_definitions@ == slots(
                property_definitions_in(before),
                self@.property_definitions,
            ),
            old(patch).relationship_definitions@ == slots(
                relationship_definitions_in(before),
                self@.relationship_definitions,
            ),
        ensures
            final(patch).wf(),
            final(patch).from_revision == old(patch).from_revision,
            final(patch).target_revision == old(patch).target_revision,
            final(patch).change_count == old(patch).change_count,
            final(patch).issued_node_ids@.dom() == issued_in(before.push(change@)),
            final(patch).nodes@ == slots(nodes_in(before.push(change@)), self@.nodes),
            final(patch).relationships@ == slots(
                relationships_in(before.push(change@)),
                self@.relationships,
            ),
            final(patch).property_definitions@ == slots(
                property_definitions_in(before.push(change@)),
                self@.property_definitions,
            ),
            final(patch).relationship_definitions@ == slots(
                relationship_definitions_in(before.push(change@)),
                self@.relationship_definitions,
            ),
    {
        proof {
            lemma_in_push(before, change@);
        }
        match change.kind {
            ChangeKind::NodeCreated | ChangeKind::NodePurged => {
                if let Some(id) = change.node_id {
                    patch.nodes.insert(id, slot_of(&self.nodes, &id));
                    patch.issued_node_ids.insert(id, Present);
                }
            },
            ChangeKind::NodeTombstoned | ChangeKind::NodeRestored | ChangeKind::PropertySet
            | ChangeKind::PropertyRemoved => {
                if let Some(id) = change.node_id {
                    patch.nodes.insert(id, slot_of(&self.nodes, &id));
                }
            },
            ChangeKind::RelationshipAdded | ChangeKind::RelationshipRemoved => {
                match (&change.node_id, &change.definition_key, &change.target) {
                    (Some(source), Some(key), Some(target)) => {
                        let relationship = Relationship {
                            source: *source,
                            key: key.clone(),
                            target: *target,
                        };
                        patch.nodes.insert(*source, slot_of(&self.nodes, source));
                        patch.nodes.insert(*target, slot_of(&self.nodes, target));
                        let slot = slot_of(&self.relationships, &relationship);
                        patch.relationships.insert(relationship, slot);
                    },
                    _ => {},
                }
            },
            ChangeKind::PropertyDefinitionRegistered | ChangeKind::PropertyDefinitionUpdated
            | ChangeKind::PropertyDefinitionDeprecated | ChangeKind::PropertyDefinitionRemoved => {
                if let Some(key) = &change.definition_key {
                    patch.property_definitions.insert(
                        key.clone(),
                        slot_of(&self.property_definitions, key),
                    );
                }
            },
            ChangeKind::RelationshipDefinitionRegistered
            | ChangeKind::RelationshipDefinitionUpdated
            | ChangeKind::RelationshipDefinitionDeprecated
            | ChangeKind::RelationshipDefinitionRemoved => {
                if let Some(key) = &change.definition_key {
                    patch.relationship_definitions.insert(
                        key.clone(),
                        slot_of(&self.relationship_definitions, key),
                    );
                }
            },
            ChangeKind::Unknown => {},
        }
        proof {
            let now = before.push(change@);
            assert(patch.issued_node_ids@.dom() =~= issued_in(now));
            assert(patch.nodes@ =~= slots(nodes_in(now), self@.nodes));
            assert(patch.relationships@ =~= slots(relationships_in(now), self@.relationships));
            assert(patch.property_definitions@ =~= slots(
                property_definitions_in(now),
                self@.property_definitions,
            ));
            assert(patch.relationship_definitions@ =~= slots(
                relationship_definitions_in(now),
                self@.relationship_definitions,
            ));
        }
    }

    /// Forgets the journal entries that lie further back than the journal must reach, and says
    /// how many they were.
    pub fn prune_change_journal(&mut self) -> (r: usize)
        requires
            old(self).wf(),
        ensures
            final(self).wf(),
            final(self)@ == pruned(old(self)@),
            r == old(self)@.journal.len() - final(self)@.journal.len(),
    {
        if self.revision <= RECORD_CHANGE_RETENTION_REVISIONS {
            return 0;
        }
        let first_to_keep: u64 = self.revision - RECORD_CHANGE_RETENTION_REVISIONS + 1;
        self.forget_before(first_to_keep)
    }

    /// Forgets the journal entries before a revision, and says how many they were.
    fn forget_before(&mut self, first_to_keep: u64) -> (r: usize)
        requires
            old(self).wf(),
        ensures
            final(self).wf(),
            final(self)@ == (RecordModel {
                journal: old(self)@.journal.filter(|c: ChangeView| c.revision >= first_to_keep),
                ..old(self)@
            }),
            r == old(self)@.journal.len() - final(self)@.journal.len(),
    {
        let ghost keep = |c: ChangeView| c.revision >= first_to_keep;
        let ghost all = self@.journal;
        let mut kept: Vec<ChangeRow> = Vec::new();
        let mut i: usize = 0;
        proof {
            assert(all.subrange(0, 0).filter(keep) =~= Seq::<ChangeView>::empty()) by {
                reveal(Seq::filter);
            }
            assert(changes_view(kept@) =~= all.subrange(0, 0).filter(keep));
        }
        while i < self.journal.len()
            invariant
                *self == *old(self),
                keep == (|c: ChangeView| c.revision >= first_to_keep),
                all == changes_view(self.journal@),
                i <= self.journal@.len(),
                kept@.len() <= i,
                changes_view(kept@) == all.subrange(0, i as int).filter(keep),
            decreases self.journal@.len() - i,
        {
            let change = self.journal[i].clone();
            let ghost seen = kept@;
            proof {
                assert(all.subrange(0, i + 1) =~= all.subrange(0, i as int).push(change@));
                all.subrange(0, i as int).lemma_filter_push(change@, keep);
            }
            if change.revision >= first_to_keep {
                kept.push(change);
                proof {
                    assert(changes_view(kept@) =~= changes_view(seen).push(change@));
                }
            }
            i = i + 1;
        }
        proof {
            assert(all.subrange(0, i as int) =~= all);
        }
        let removed: usize = self.journal.len() - kept.len();
        self.journal = kept;
        removed
    }

    /// Forgets the journal entries up to a revision, and says how many they were.
    pub fn prune_changes_through(&mut self, revision: u64) -> (r: usize)
        requires
            old(self).wf(),
        ensures
            final(self).wf(),
            final(self)@ == (RecordModel {
                journal: changes_after(old(self)@.journal, revision),
                ..old(self)@
            }),
            r == old(self)@.journal.len() - final(self)@.journal.len(),
    {
        if revision == u64::MAX {
            let removed: usize = self.journal.len();
            proof {
                let later = |c: ChangeView| c.revision > revision;
                self@.journal.lemma_all_neg_filter_empty(later);
            }
            self.journal = Vec::new();
            proof {
                assert(changes_view(self.journal@) =~= Seq::<ChangeView>::empty());
            }
            removed
        } else {
            proof {
                let later = |c: ChangeView| c.revision > revision;
                let from = |c: ChangeView| c.revision >= (revision + 1) as u64;
                assert(later =~= from);
            }
            self.forget_before(revision + 1)
        }
    }

    /// Forgets the whole journal.
    pub fn clear_change_journal(&mut self)
        requires
            old(self).wf(),
        ensures
            final(self).wf(),
            final(self)@ == (RecordModel { journal: Seq::empty(), ..old(self)@ }),
    {
        self.journal = Vec::new();
        proof {
            assert(changes_view(self.journal@) =~= Seq::<ChangeView>::empty());
        }
    }
}

/// The store once its journal keeps no more than it must: the entries of the latest revisions.
pub open spec fn pruned(m: RecordModel) -> RecordModel {
    if m.revision <= RECORD_CHANGE_RETENTION_REVISIONS {
        m
    } else {
        let first_to_keep = (m.revision - RECORD_CHANGE_RETENTION_REVISIONS + 1) as u64;
        RecordModel {
            journal: m.journal.filter(|c: ChangeView| c.revision >= first_to_keep),
            ..m
        }
    }
}

/// What one more change adds to what the changes before it concern.
proof fn lemma_in_push(before: Seq<ChangeView>, c: ChangeView)
    ensures
        forall|id: NodeId| #[trigger]
            nodes_in(before.push(c)).contains(id) <==> nodes_in(before).contains(id)
                || concerns_node(c, id),
        forall|id: NodeId| #[trigger]
            issued_in(before.push(c)).contains(id) <==> issued_in(before).contains(id)
                || concerns_issued(c, id),
        forall|r: RelationshipView| #[trigger]
            relationships_in(before.push(c)).contains(r) <==> relationships_in(before).contains(r)
                || concerns_relationship(c, r),
        forall|k: Seq<char>| #[trigger]
            property_definitions_in(before.push(c)).contains(k) <==> property_definitions_in(
                before,
            ).contains(k) || concerns_property_definition(c, k),
        forall|k: Seq<char>| #[trigger]
            relationship_definitions_in(before.push(c)).contains(k)
                <==> relationship_definitions_in(before).contains(k)
                || concerns_relationship_definition(c, k),
{
    let now = before.push(c);
    assert(now[before.len() as int] == c);
    assert forall|i: int| 0 <= i < before.len() implies #[trigger] now[i] == before[i] by {}
    assert forall|id: NodeId| #[trigger]
        nodes_in(now).contains(id) <==> nodes_in(before).contains(id) || concerns_node(c, id) by {
        if nodes_in(before).contains(id) {
            let i = choose|i: int| 0 <= i < before.len() && concerns_node(#[trigger] before[i], id);
            assert(concerns_node(now[i], id));
        }
    }
    assert forall|id: NodeId| #[trigger]
        issued_in(now).contains(id) <==> issued_in(before).contains(id) || concerns_issued(
            c,
            id,
        ) by {
        if issued_in(before).contains(id) {
            let i = choose|i: int|
                0 <= i < before.len() && concerns_issued(#[trigger] before[i], id);
            assert(concerns_issued(now[i], id));
        }
    }
    assert forall|r: RelationshipView| #[trigger]
        relationships_in(now).contains(r) <==> relationships_in(before).contains(r)
            || concerns_relationship(c, r) by {
        if relationships_in(before).contains(r) {
            let i = choose|i: int|
                0 <= i < before.len() && concerns_relationship(#[trigger] before[i], r);
            assert(concerns_relationship(now[i], r));
        }
    }
    assert forall|k: Seq<char>| #[trigger]
        property_definitions_in(now).contains(k) <==> property_definitions_in(before).contains(k)
            || concerns_property_definition(c, k) by {
        if property_definitions_in(before).contains(k) {
            let i = choose|i: int|
                0 <= i < before.len() && concerns_property_definition(#[trigger] before[i], k);
            assert(concerns_property_definition(now[i], k));
        }
    }
    assert forall|k: Seq<char>| #[trigger]
        relationship_definitions_in(now).contains(k) <==> relationship_definitions_in(
            before,
        ).contains(k) || concerns_relationship_definition(c, k) by {
        if relationship_definitions_in(before).contains(k) {
            let i = choose|i: int|
                0 <= i < before.len() && concerns_relationship_definition(
                    #[trigger] before[i],
                    k,
                );
            assert(concerns_relationship_definition(now[i], k));
        }
    }
}

} // verus!
