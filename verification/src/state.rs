//! The core as one value: the Record Store, the Index that follows it, and the boundary that guards
//! them. Every operation commits to the Record Store first; the Index and the recovery material
//! follow as far as they can.
use vstd::prelude::*;
use crate::api::{
    clamped_limit, page_fault, page_of, window, Commit, CursorPage, DefinitionUsage,
    DerivedRelationshipInput, GraphEdge, GraphNode, GraphProjection, IdentityResolution,
    IndexRebuildReason, IndexSyncState, IndexSyncStatus, IndexedPropertyMatch,
    IndexedRelationship, Mutation, NewPropertyDefinition, NewRelationshipDefinition,
    PropertyDefinition, PropertyDefinitionUpdate, PropertyQuery, ReadCursor, ReadPage,
    ReconcileOutcome, Relationship, RelationshipDefinition, RelationshipDefinitionUpdate,
    RelationshipDirection, SearchDocumentInput,
};
use crate::error::{message_of, CoreError, ErrorView};
use crate::id::NodeId;
use crate::index::content::{add_content, replace_node_result, without_content};
use crate::index::graph::{
    edge_page_list, edges_view, graph_edge_list, graph_node_list, graph_nodes_view, loose_ids,
    node_page_list, orphans,
};
use crate::index::links::{all_links, backlink_list, links_shown, links_view, LinkKey};
use crate::index::model::{FailurePoint, IndexModel, IndexStore};
use crate::index::nodes::{
    answers, node_call, nodes_of, places, resumes, traversal_read, NodePlace,
};
use crate::index::projection::{
    law_rebuild_shows_records, law_reconcile_follows_history, left_by_rebuild, left_by_reconcile,
    rebuild_fault, rebuilt_index, reconcile_fault, reconcile_outcome, reconciled,
};
use crate::index::query::{match_list, matches_view, query_fault, query_limit};
use crate::index::schema::{law_opening_shows_records, IndexFile};
use crate::node::{LifecycleState, Node};
use crate::record_store::definitions::{
    deprecate_property_result, deprecate_relationship_result, deprecated_property,
    deprecated_relationship, new_property_definition, new_relationship_definition,
    property_definition_list, property_definition_missing, property_definitions_view,
    property_fact_count, register_property_result, register_relationship_result,
    relationship_definition_list, relationship_definition_missing, relationship_definitions_view,
    relationship_fact_count, remove_property_result, remove_relationship_result,
    update_property_result, update_relationship_result, updated_property, updated_relationship,
};
use crate::record_store::history::{is_history, leads, without_journal};
use crate::record_store::keys::{key_fault, KeyUse};
use crate::record_store::laws::{commits, consistent, law_empty_is_consistent};
use crate::record_store::model::{empty_model, ChangeView, RecordModel, RecordStore};
use crate::record_store::operations::{
    active_nodes, batch_result, create_all_result, create_result, never_issued, no_node,
    node_answers, property_answers, resolution,
};
use crate::record_store::projection::pruned;
use crate::record_store::queries::{
    optional_str, pairs_view, property_list, relationship_list, relationships_view,
};
use crate::record_store::schema::{
    ends_at_revision, law_commit_ends_the_journal, law_prune_keeps_the_end,
};
use crate::record_store::stable_scan::{cursor_of, StableReadSnapshot};
use crate::recovery::artifacts::RecoveryManifest;
use crate::recovery::manager::{
    catch_up, catch_up_action, complete_purge_barrier, reconcile_action, status_of, ActionView,
    RecoveryAction, RecoveryStatus,
};
use crate::recovery::plan::RecoveryPlan;
use crate::security::{boundary_fault, BoundaryEvidence, StorageBoundary};
use crate::table::in_order;
use crate::value::PropertyValue;

verus! {

/// What a database says of itself.
#[derive(Debug, PartialEq, Eq)]
pub struct StoreStatus {
    pub path: String,
    pub schema_version: u32,
    pub integrity_ok: bool,
    /// Nonfatal loss of provenance or context; surviving canonical data is
    /// still readable, but must not be represented as fully verified.
    pub degraded_reason: Option<String>,
}

/// What a core says of itself.
#[derive(Debug, PartialEq, Eq)]
pub struct CoreStatus {
    pub library_root: String,
    pub record_store: StoreStatus,
    pub index_store: StoreStatus,
    pub index_sync: IndexSyncStatus,
    pub recovery: RecoveryStatus,
}

/// Owns the Record Store and the Index. Higher layers receive operations and
/// status, never the stores themselves.
///
/// Mutation `Ok` reports canonical success, not successful Index/recovery
/// synchronization. Ordinary follow-up is best-effort: inspect `index_sync` and
/// use `reconcile_index`, `rebuild_index`, or `reconcile_recovery` when needed.
/// Purge separately requires a recovery barrier; its completion failure is
/// reported as `PostCommitFailure` after the canonical purge has committed.
pub struct CoreState {
    pub(crate) records: RecordStore,
    pub(crate) index: IndexStore,
    pub(crate) boundary: StorageBoundary,
    pub(crate) evidence: BoundaryEvidence,
    pub(crate) manifest: Result<RecoveryManifest, CoreError>,
    pub(crate) recovery_work: RecoveryAction,
}

/// The whole content of a core.
#[verifier::ext_equal]
pub struct CoreModel {
    pub records: RecordModel,
    pub index: IndexModel,
    /// Where the next failure of the Index is made to happen, if anywhere.
    pub failure: Option<FailurePoint>,
    pub boundary: StorageBoundary,
    /// What was last found at the root.
    pub evidence: BoundaryEvidence,
    /// What was last read of the recovery material.
    pub manifest: Result<RecoveryManifest, CoreError>,
    /// What is to be done next to the recovery material.
    pub recovery_work: ActionView,
}

impl View for CoreState {
    type V = CoreModel;

    open(crate) spec fn view(&self) -> CoreModel {
        CoreModel {
            records: self.records@,
            index: self.index@,
            failure: self.index.failure(),
            boundary: self.boundary,
            evidence: self.evidence,
            manifest: self.manifest,
            recovery_work: self.recovery_work@,
        }
    }
}

/// Why a core takes no writes now.
pub open spec fn write_fault(c: CoreModel) -> Option<ErrorView> {
    boundary_fault(c.boundary, c.evidence)
}

/// A core whose Index follows its Record Store as far as it can: where it can, the journal is
/// pruned afterwards; where it cannot, both stay as they are.
pub open spec fn synced(c: CoreModel) -> CoreModel {
    if reconcile_fault(c.index, c.records, c.failure) is None {
        CoreModel {
            records: pruned(c.records),
            index: reconciled(c.index, c.records),
            ..c
        }
    } else {
        CoreModel { failure: left_by_reconcile(c.index, c.records, c.failure), ..c }
    }
}

/// A core that knows what its recovery material needs.
pub open spec fn with_recovery_work(c: CoreModel) -> CoreModel {
    CoreModel {
        recovery_work: match c.manifest {
            Ok(manifest) => catch_up_action(manifest@, c.records),
            Err(_) => ActionView::Nothing,
        },
        ..c
    }
}

/// A core once everything derived of a commit follows it.
pub open spec fn settled(c: CoreModel) -> CoreModel {
    synced(with_recovery_work(c))
}

/// A core with another Record Store content.
pub open spec fn with_records(c: CoreModel, m: RecordModel) -> CoreModel {
    CoreModel { records: m, ..c }
}

/// Whether a write was answered as it should: refused where the boundary cannot be shown, failed
/// where the Record Store refuses it, both without a change; and otherwise committed, with
/// everything derived following as far as it can.
pub open spec fn answered<T>(
    r: Result<T, CoreError>,
    before: CoreModel,
    after: CoreModel,
    expected: Result<RecordModel, ErrorView>,
) -> bool {
    match r {
        Ok(_) => write_fault(before) is None && expected is Ok && after == settled(
            with_records(before, expected->Ok_0),
        ),
        Err(e) => after == before && match write_fault(before) {
            Some(fault) => e@ == fault,
            None => expected == Err::<RecordModel, ErrorView>(e@),
        },
    }
}

/// Whether a batch purges a Node.
pub open spec fn purges_any(mutations: Seq<Mutation>) -> bool {
    exists|i: int| 0 <= i < mutations.len() && #[trigger] mutations[i] is PurgeNode
}

/// A core that committed a purge and awaits its recovery barrier.
pub open spec fn awaiting_barrier(c: CoreModel) -> CoreModel {
    CoreModel {
        recovery_work: ActionView::Reset {
            purge_barrier_revision: Some(c.records.revision),
            note: None,
        },
        ..c
    }
}

/// A core once a batch was committed: settled, unless it purges, in which case the Index follows
/// only once the recovery barrier stands.
pub open spec fn committed(c: CoreModel, mutations: Seq<Mutation>) -> CoreModel {
    if purges_any(mutations) {
        awaiting_barrier(c)
    } else {
        settled(c)
    }
}

/// A core once a batch was applied and, where it purges, the recovery barrier stands.
pub open spec fn applied(c: CoreModel, mutations: Seq<Mutation>) -> CoreModel {
    if purges_any(mutations) {
        synced(awaiting_barrier(c))
    } else {
        settled(c)
    }
}

/// Whether a batch was answered as it should.
pub open spec fn batch_answered(
    r: Result<Commit, CoreError>,
    before: CoreModel,
    after: CoreModel,
    mutations: Seq<Mutation>,
    done: CoreModel,
) -> bool {
    let expected = batch_result(before.records, mutations);
    match r {
        Ok(commit) => write_fault(before) is None && expected is Ok && after == done
            && commit.revision == expected->Ok_0.revision && commit.change_count
            == mutations.len(),
        Err(e) => after == before && match write_fault(before) {
            Some(fault) => e@ == fault,
            None => expected == Err::<RecordModel, ErrorView>(e@),
        },
    }
}

/// How far an Index follows a Record Store.
pub open spec fn sync_of(c: CoreModel) -> IndexSyncStatus {
    IndexSyncStatus {
        record_revision: c.records.revision,
        applied_revision: c.index.applied_revision,
        state: if c.records.revision == c.index.applied_revision {
            IndexSyncState::Current
        } else {
            IndexSyncState::Stale
        },
    }
}

/// Whether a batch purges a Node, so that a recovery barrier follows its commit.
pub fn purges(mutations: &[Mutation]) -> (r: bool)
    ensures
        r == purges_any(mutations@),
{
    let mut i: usize = 0;
    while i < mutations.len()
        invariant
            i <= mutations@.len(),
            forall|j: int| 0 <= j < i ==> !(#[trigger] mutations@[j] is PurgeNode),
        decreases mutations@.len() - i,
    {
        match &mutations[i] {
            Mutation::PurgeNode { .. } => {
                proof {
                    assert(mutations@[i as int] is PurgeNode);
                }
                return true;
            },
            _ => {},
        }
        i = i + 1;
    }
    false
}

impl CoreState {
    /// The invariant: both stores are in order.
    pub open(crate) spec fn wf(&self) -> bool {
        self.records.wf() && self.index.wf()
    }

    /// The core of an opened Record Store: its Index is opened or built, and then the journal is
    /// pruned.
    pub fn open(
        records: RecordStore,
        found: &IndexFile,
        boundary: StorageBoundary,
        evidence: BoundaryEvidence,
        manifest: Result<RecoveryManifest, CoreError>,
    ) -> (r: Result<CoreState, CoreError>)
        requires
            records.wf(),
            *found is Rows ==> found->Rows_0.wf(),
        ensures
            match r {
                Ok(core) => {
                    &&& core.wf()
                    &&& boundary_fault(boundary, evidence) is None
                    &&& core@.records == pruned(records@)
                    &&& core@.failure is None
                    &&& core@.boundary == boundary
                    &&& core@.evidence == evidence
                    &&& core@.manifest == manifest
                    &&& core@.recovery_work == ActionView::Nothing
                    &&& match *found {
                        IndexFile::Rows(rows) => reconcile_fault(rows.model(), records@, None)
                            is None && core@.index == reconciled(rows.model(), records@),
                        _ => rebuild_fault(records@, None) is None && core@.index
                            == rebuilt_index(records@),
                    }
                },
                Err(e) => match boundary_fault(boundary, evidence) {
                    Some(fault) => e@ == fault,
                    None => match *found {
                        IndexFile::Rows(rows) => reconcile_fault(rows.model(), records@, None)
                            == Some(e@),
                        _ => rebuild_fault(records@, None) == Some(e@),
                    },
                },
            },
    {
        match boundary.validate(&evidence) {
            Err(e) => return Err(e),
            Ok(_) => {},
        }
        let mut records = records;
        match IndexStore::open_for_core(found, &records) {
            Err(e) => Err(e),
            Ok((index, _)) => {
                records.prune_change_journal();
                Ok(
                    CoreState {
                        records,
                        index,
                        boundary,
                        evidence,
                        manifest,
                        recovery_work: RecoveryAction::Nothing,
                    },
                )
            },
        }
    }

    /// Takes note of what is found at the root and read of the recovery material now.
    pub fn observe(
        &mut self,
        evidence: BoundaryEvidence,
        manifest: Result<RecoveryManifest, CoreError>,
    )
        requires
            old(self).wf(),
        ensures
            final(self).wf(),
            final(self)@ == (CoreModel { evidence, manifest, ..old(self)@ }),
    {
        self.evidence = evidence;
        self.manifest = manifest;
    }

    /// Hands out what is to be done next to the recovery material.
    pub fn take_recovery_work(&mut self) -> (r: RecoveryAction)
        requires
            old(self).wf(),
        ensures
            final(self).wf(),
            r@ == old(self)@.recovery_work,
            final(self)@ == (CoreModel { recovery_work: ActionView::Nothing, ..old(self)@ }),
    {
        let mut work = RecoveryAction::Nothing;
        std::mem::swap(&mut self.recovery_work, &mut work);
        work
    }

    /// Makes the next failure of the Index happen at a point.
    pub fn inject_index_failure(&mut self, point: FailurePoint)
        requires
            old(self).wf(),
        ensures
            final(self).wf(),
            final(self)@ == (CoreModel { failure: Some(point), ..old(self)@ }),
    {
        self.index.inject_failure(point);
    }

    /// The Record Store.
    pub fn record_store(&self) -> (r: &RecordStore)
        requires
            self.wf(),
        ensures
            r.wf(),
            r@ == self@.records,
    {
        &self.records
    }

    /// The Index.
    pub fn index_store(&self) -> (r: &IndexStore)
        requires
            self.wf(),
        ensures
            r.wf(),
            r@ == self@.index,
    {
        &self.index
    }

    /// Revalidates the configured storage boundary before an above-Core
    /// capability begins a write that will later call Core.
    pub fn assert_writable(&self) -> (r: Result<(), CoreError>)
        ensures
            match r {
                Ok(_) => write_fault(self@) is None,
                Err(e) => write_fault(self@) == Some(e@),
            },
    {
        self.boundary.validate(&self.evidence)
    }

    /// How far the Index follows the Record Store.
    pub fn index_sync(&self) -> (r: IndexSyncStatus)
        ensures
            r == sync_of(self@),
    {
        let record_revision: u64 = self.records.current_revision();
        let applied_revision: u64 = self.index.applied_revision();
        IndexSyncStatus {
            record_revision,
            applied_revision,
            state: if record_revision == applied_revision {
                IndexSyncState::Current
            } else {
                IndexSyncState::Stale
            },
        }
    }

    /// What the core says of itself, given what the two databases say of themselves and what there
    /// is to recover from.
    pub fn status(
        &self,
        library_root: String,
        record_store: StoreStatus,
        index_store: StoreStatus,
        best: &Result<RecoveryPlan, CoreError>,
    ) -> (r: CoreStatus)
        requires
            self.wf(),
        ensures
            r.library_root == library_root,
            r.record_store == record_store,
            r.index_store == index_store,
            r.index_sync == sync_of(self@),
            r.recovery@ == status_of(self@.manifest, *best, self@.records.revision),
    {
        CoreStatus {
            library_root,
            record_store,
            index_store,
            index_sync: self.index_sync(),
            recovery: crate::recovery::manager::status(
                &self.manifest,
                best,
                self.records.current_revision(),
            ),
        }
    }

    fn sync_index_best_effort(&mut self)
        requires
            old(self).wf(),
        ensures
            final(self).wf(),
            final(self)@ == synced(old(self)@),
    {
        match self.index.reconcile(&self.records) {
            Ok(_) => {
                self.records.prune_change_journal();
            },
            Err(_) => {},
        }
        proof {
            assert(self@ =~= synced(old(self)@));
        }
    }

    fn sync_recovery_best_effort(&mut self)
        requires
            old(self).wf(),
        ensures
            final(self).wf(),
            final(self)@ == with_recovery_work(old(self)@),
    {
        let work = match &self.manifest {
            Ok(manifest) => catch_up(manifest, &self.records),
            Err(_) => RecoveryAction::Nothing,
        };
        self.recovery_work = work;
        proof {
            assert(self@ =~= with_recovery_work(old(self)@));
        }
    }

    fn sync_derived_best_effort(&mut self)
        requires
            old(self).wf(),
        ensures
            final(self).wf(),
            final(self)@ == settled(old(self)@),
    {
        self.sync_recovery_best_effort();
        self.sync_index_best_effort();
    }

    /// Creates a Node with a new permanent ID.
    pub fn create_node(&mut self) -> (r: Result<Node, CoreError>)
        requires
            old(self).wf(),
        ensures
            final(self).wf(),
            exists|id: NodeId|
                id.valid() && #[trigger] answered(
                    r,
                    old(self)@,
                    final(self)@,
                    create_result(old(self)@.records, id),
                ) && (r is Ok ==> r->Ok_0.id == id),
            r is Ok ==> r->Ok_0.lifecycle_state == LifecycleState::Active,
    {
        let id = NodeId::new();
        self.create_node_with_id(id)
    }

    /// Creates several Nodes with new permanent IDs, all of them or none.
    pub fn create_nodes(&mut self, count: usize) -> (r: Result<Vec<Node>, CoreError>)
        requires
            old(self).wf(),
        ensures
            final(self).wf(),
            exists|ids: Seq<NodeId>|
                ids.len() == count && #[trigger] answered(
                    r,
                    old(self)@,
                    final(self)@,
                    create_all_result(old(self)@.records, ids),
                ) && (r is Ok ==> active_nodes(r->Ok_0@, ids)),
    {
        match self.assert_writable() {
            Err(e) => {
                proof {
                    let ids = Seq::new(count as nat, |i: int| arbitrary::<NodeId>());
                    assert(answered(
                        Err::<Vec<Node>, CoreError>(e),
                        old(self)@,
                        self@,
                        create_all_result(old(self)@.records, ids),
                    ));
                }
                return Err(e);
            },
            Ok(_) => {},
        }
        let made = self.records.create_nodes(count);
        let ghost ids = choose|ids: Seq<NodeId>|
            ids.len() == count && crate::record_store::operations::meets(
                made,
                self.records@,
                create_all_result(old(self)@.records, ids),
            ) && (made is Ok ==> active_nodes(made->Ok_0@, ids));
        match made {
            Err(e) => {
                proof {
                    assert(self@ =~= old(self)@);
                    assert(answered(
                        Err::<Vec<Node>, CoreError>(e),
                        old(self)@,
                        self@,
                        create_all_result(old(self)@.records, ids),
                    ));
                }
                Err(e)
            },
            Ok(nodes) => {
                proof {
                    assert(self@ =~= with_records(old(self)@, self.records@));
                }
                self.sync_derived_best_effort();
                proof {
                    assert(answered(
                        Ok::<Vec<Node>, CoreError>(nodes),
                        old(self)@,
                        self@,
                        create_all_result(old(self)@.records, ids),
                    ));
                }
                Ok(nodes)
            },
        }
    }

    /// Creates a Node with a caller-supplied permanent UUIDv7. This is useful
    /// for migrations and capability operation journals that must allocate an
    /// identity before completing work. Core still validates uniqueness and
    /// UUIDv7 form.
    pub fn create_node_with_id(&mut self, node_id: NodeId) -> (r: Result<Node, CoreError>)
        requires
            old(self).wf(),
        ensures
            final(self).wf(),
            answered(
                r,
                old(self)@,
                final(self)@,
                create_result(old(self)@.records, node_id),
            ),
            r is Ok ==> r->Ok_0.id == node_id && r->Ok_0.lifecycle_state
                == LifecycleState::Active,
    {
        match self.assert_writable() {
            Err(e) => return Err(e),
            Ok(_) => {},
        }
        match self.records.create_node_with_id(node_id) {
            Err(e) => {
                proof {
                    assert(self@ =~= old(self)@);
                }
                Err(e)
            },
            Ok(node) => {
                proof {
                    assert(self@ =~= with_records(old(self)@, self.records@));
                }
                self.sync_derived_best_effort();
                Ok(node)
            },
        }
    }

    /// Commits a batch, all of it or nothing. Where it purges a Node, its recovery barrier is the
    /// next recovery work, and `settle_purge` takes what came of it.
    pub fn commit_batch(&mut self, mutations: &[Mutation]) -> (r: Result<Commit, CoreError>)
        requires
            old(self).wf(),
        ensures
            final(self).wf(),
            batch_answered(
                r,
                old(self)@,
                final(self)@,
                mutations@,
                committed(
                    with_records(old(self)@, batch_result(old(self)@.records, mutations@)->Ok_0),
                    mutations@,
                ),
            ),
    {
        match self.assert_writable() {
            Err(e) => return Err(e),
            Ok(_) => {},
        }
        match self.records.apply_batch(mutations) {
            Err(e) => {
                proof {
                    assert(self@ =~= old(self)@);
                }
                Err(e)
            },
            Ok(commit) => {
                let ghost n = self.records@;
                proof {
                    assert(self@ =~= with_records(old(self)@, n));
                }
                if purges(mutations) {
                    match complete_purge_barrier(&self.records, commit.revision) {
                        Ok(action) => {
                            self.recovery_work = action;
                        },
                        Err(_) => {},
                    }
                    proof {
                        assert(self@ =~= awaiting_barrier(with_records(old(self)@, n)));
                    }
                } else {
                    self.sync_derived_best_effort();
                }
                Ok(commit)
            },
        }
    }

    /// Ends a committed purge by what came of its recovery barrier: the Index follows where it
    /// stands; where it does not, the failure is reported, although the purge is committed.
    pub fn settle_purge(&mut self, commit: Commit, barrier: Result<(), CoreError>) -> (r: Result<
        Commit,
        CoreError,
    >)
        requires
            old(self).wf(),
        ensures
            final(self).wf(),
            match r {
                Ok(done) => barrier is Ok && done == commit && final(self)@ == synced(old(self)@),
                Err(e) => barrier is Err && final(self)@ == old(self)@ && e@ == (
                ErrorView::PostCommitFailure {
                    revision: commit.revision,
                    follow_up: "purge recovery barrier"@,
                    reason: message_of(barrier->Err_0@),
                }),
            },
    {
        match barrier {
            Err(e) => Err(
                CoreError::PostCommitFailure {
                    revision: commit.revision,
                    follow_up: "purge recovery barrier",
                    reason: e.to_string(),
                },
            ),
            Ok(_) => {
                self.sync_index_best_effort();
                Ok(commit)
            },
        }
    }

    /// Applies a batch, all of it or nothing, where a purge's recovery barrier stands without
    /// further work.
    pub fn apply_batch(&mut self, mutations: &[Mutation]) -> (r: Result<Commit, CoreError>)
        requires
            old(self).wf(),
        ensures
            final(self).wf(),
            batch_answered(
                r,
                old(self)@,
                final(self)@,
                mutations@,
                applied(
                    with_records(old(self)@, batch_result(old(self)@.records, mutations@)->Ok_0),
                    mutations@,
                ),
            ),
    {
        match self.commit_batch(mutations) {
            Err(e) => Err(e),
            Ok(commit) => if purges(mutations) {
                self.settle_purge(commit, Ok(()))
            } else {
                Ok(commit)
            },
        }
    }

    /// Sets a Property of an active Node.
    pub fn set_property(
        &mut self,
        node_id: NodeId,
        key: String,
        value: PropertyValue,
    ) -> (r: Result<Commit, CoreError>)
        requires
            old(self).wf(),
        ensures
            final(self).wf(),
            ({
                let batch = seq![Mutation::SetProperty { node_id, key, value }];
                batch_answered(
                    r,
                    old(self)@,
                    final(self)@,
                    batch,
                    applied(
                        with_records(old(self)@, batch_result(old(self)@.records, batch)->Ok_0),
                        batch,
                    ),
                )
            }),
    {
        let batch = vec![Mutation::SetProperty { node_id, key, value }];
        proof {
            assert(batch@ =~= seq![Mutation::SetProperty { node_id, key, value }]);
        }
        self.apply_batch(batch.as_slice())
    }

    /// Removes a Property of an active Node.
    pub fn remove_property(
        &mut self,
        node_id: NodeId,
        key: String,
    ) -> (r: Result<Commit, CoreError>)
        requires
            old(self).wf(),
        ensures
            final(self).wf(),
            ({
                let batch = seq![Mutation::RemoveProperty { node_id, key }];
                batch_answered(
                    r,
                    old(self)@,
                    final(self)@,
                    batch,
                    applied(
                        with_records(old(self)@, batch_result(old(self)@.records, batch)->Ok_0),
                        batch,
                    ),
                )
            }),
    {
        let batch = vec![Mutation::RemoveProperty { node_id, key }];
        proof {
            assert(batch@ =~= seq![Mutation::RemoveProperty { node_id, key }]);
        }
        self.apply_batch(batch.as_slice())
    }

    /// Adds a Relationship between two active Nodes.
    pub fn add_relationship(
        &mut self,
        source: NodeId,
        key: String,
        target: NodeId,
    ) -> (r: Result<Commit, CoreError>)
        requires
            old(self).wf(),
        ensures
            final(self).wf(),
            ({
                let batch = seq![Mutation::AddRelationship { source, key, target }];
                batch_answered(
                    r,
                    old(self)@,
                    final(self)@,
                    batch,
                    applied(
                        with_records(old(self)@, batch_result(old(self)@.records, batch)->Ok_0),
                        batch,
                    ),
                )
            }),
    {
        let batch = vec![Mutation::AddRelationship { source, key, target }];
        proof {
            assert(batch@ =~= seq![Mutation::AddRelationship { source, key, target }]);
        }
        self.apply_batch(batch.as_slice())
    }

    /// Removes a Relationship.
    pub fn remove_relationship(
        &mut self,
        source: NodeId,
        key: String,
        target: NodeId,
    ) -> (r: Result<Commit, CoreError>)
        requires
            old(self).wf(),
        ensures
            final(self).wf(),
            ({
                let batch = seq![Mutation::RemoveRelationship { source, key, target }];
                batch_answered(
                    r,
                    old(self)@,
                    final(self)@,
                    batch,
                    applied(
                        with_records(old(self)@, batch_result(old(self)@.records, batch)->Ok_0),
                        batch,
                    ),
                )
            }),
    {
        let batch = vec![Mutation::RemoveRelationship { source, key, target }];
        proof {
            assert(batch@ =~= seq![Mutation::RemoveRelationship { source, key, target }]);
        }
        self.apply_batch(batch.as_slice())
    }

    /// Tombstones an active Node.
    pub fn tombstone_node(&mut self, node_id: NodeId) -> (r: Result<Commit, CoreError>)
        requires
            old(self).wf(),
        ensures
            final(self).wf(),
            ({
                let batch = seq![Mutation::TombstoneNode { node_id }];
                batch_answered(
                    r,
                    old(self)@,
                    final(self)@,
                    batch,
                    applied(
                        with_records(old(self)@, batch_result(old(self)@.records, batch)->Ok_0),
                        batch,
                    ),
                )
            }),
    {
        let batch = vec![Mutation::TombstoneNode { node_id }];
        proof {
            assert(batch@ =~= seq![Mutation::TombstoneNode { node_id }]);
        }
        self.apply_batch(batch.as_slice())
    }

    /// Makes a tombstoned Node active again.
    pub fn restore_node(&mut self, node_id: NodeId) -> (r: Result<Commit, CoreError>)
        requires
            old(self).wf(),
        ensures
            final(self).wf(),
            ({
                let batch = seq![Mutation::RestoreNode { node_id }];
                batch_answered(
                    r,
                    old(self)@,
                    final(self)@,
                    batch,
                    applied(
                        with_records(old(self)@, batch_result(old(self)@.records, batch)->Ok_0),
                        batch,
                    ),
                )
            }),
    {
        let batch = vec![Mutation::RestoreNode { node_id }];
        proof {
            assert(batch@ =~= seq![Mutation::RestoreNode { node_id }]);
        }
        self.apply_batch(batch.as_slice())
    }

    /// Purges a tombstoned Node; its ID stays issued.
    pub fn purge_node(&mut self, node_id: NodeId) -> (r: Result<Commit, CoreError>)
        requires
            old(self).wf(),
        ensures
            final(self).wf(),
            ({
                let batch = seq![Mutation::PurgeNode { node_id }];
                batch_answered(
                    r,
                    old(self)@,
                    final(self)@,
                    batch,
                    applied(
                        with_records(old(self)@, batch_result(old(self)@.records, batch)->Ok_0),
                        batch,
                    ),
                )
            }),
    {
        let batch = vec![Mutation::PurgeNode { node_id }];
        proof {
            assert(batch@ =~= seq![Mutation::PurgeNode { node_id }]);
        }
        self.apply_batch(batch.as_slice())
    }

    /// Registers a Property definition.
    pub fn register_property_definition(
        &mut self,
        definition: &NewPropertyDefinition,
    ) -> (r: Result<PropertyDefinition, CoreError>)
        requires
            old(self).wf(),
        ensures
            final(self).wf(),
            answered(
                r,
                old(self)@,
                final(self)@,
                register_property_result(old(self)@.records, new_property_definition(*definition)),
            ),
            r is Ok ==> r->Ok_0@ == new_property_definition(*definition),
    {
        match self.assert_writable() {
            Err(e) => return Err(e),
            Ok(_) => {},
        }
        match self.records.register_property_definition(definition) {
            Err(e) => {
                proof {
                    assert(self@ =~= old(self)@);
                }
                Err(e)
            },
            Ok(done) => {
                proof {
                    assert(self@ =~= with_records(old(self)@, self.records@));
                }
                self.sync_derived_best_effort();
                Ok(done)
            },
        }
    }

    /// Changes what a Property definition says, never the facts under its key.
    pub fn update_property_definition(
        &mut self,
        key: &str,
        update: &PropertyDefinitionUpdate,
    ) -> (r: Result<PropertyDefinition, CoreError>)
        requires
            old(self).wf(),
        ensures
            final(self).wf(),
            answered(
                r,
                old(self)@,
                final(self)@,
                update_property_result(old(self)@.records, key@, *update),
            ),
            r is Ok ==> r->Ok_0@ == updated_property(old(self)@.records, key@, *update),
    {
        match self.assert_writable() {
            Err(e) => return Err(e),
            Ok(_) => {},
        }
        match self.records.update_property_definition(key, update) {
            Err(e) => {
                proof {
                    assert(self@ =~= old(self)@);
                }
                Err(e)
            },
            Ok(done) => {
                proof {
                    assert(self@ =~= with_records(old(self)@, self.records@));
                }
                self.sync_derived_best_effort();
                Ok(done)
            },
        }
    }

    /// Deprecates a Property definition.
    pub fn deprecate_property_definition(
        &mut self,
        key: &str,
        replacement: Option<&str>,
    ) -> (r: Result<PropertyDefinition, CoreError>)
        requires
            old(self).wf(),
        ensures
            final(self).wf(),
            answered(
                r,
                old(self)@,
                final(self)@,
                deprecate_property_result(old(self)@.records, key@, optional_str(replacement)),
            ),
            r is Ok ==> r->Ok_0@ == deprecated_property(
                old(self)@.records,
                key@,
                optional_str(replacement),
            ),
    {
        match self.assert_writable() {
            Err(e) => return Err(e),
            Ok(_) => {},
        }
        match self.records.deprecate_property_definition(key, replacement) {
            Err(e) => {
                proof {
                    assert(self@ =~= old(self)@);
                }
                Err(e)
            },
            Ok(done) => {
                proof {
                    assert(self@ =~= with_records(old(self)@, self.records@));
                }
                self.sync_derived_best_effort();
                Ok(done)
            },
        }
    }

    /// Removes a Property definition that no fact uses.
    pub fn remove_property_definition(&mut self, key: &str) -> (r: Result<Commit, CoreError>)
        requires
            old(self).wf(),
        ensures
            final(self).wf(),
            answered(r, old(self)@, final(self)@, remove_property_result(old(self)@.records, key@)),
            r is Ok ==> r->Ok_0.revision == remove_property_result(
                old(self)@.records,
                key@,
            )->Ok_0.revision && r->Ok_0.change_count == 1,
    {
        match self.assert_writable() {
            Err(e) => return Err(e),
            Ok(_) => {},
        }
        match self.records.remove_property_definition(key) {
            Err(e) => {
                proof {
                    assert(self@ =~= old(self)@);
                }
                Err(e)
            },
            Ok(done) => {
                proof {
                    assert(self@ =~= with_records(old(self)@, self.records@));
                }
                self.sync_derived_best_effort();
                Ok(done)
            },
        }
    }

    /// Registers a Relationship definition.
    pub fn register_relationship_definition(
        &mut self,
        definition: &NewRelationshipDefinition,
    ) -> (r: Result<RelationshipDefinition, CoreError>)
        requires
            old(self).wf(),
        ensures
            final(self).wf(),
            answered(
                r,
                old(self)@,
                final(self)@,
                register_relationship_result(
                    old(self)@.records,
                    new_relationship_definition(*definition),
                ),
            ),
            r is Ok ==> r->Ok_0@ == new_relationship_definition(*definition),
    {
        match self.assert_writable() {
            Err(e) => return Err(e),
            Ok(_) => {},
        }
        match self.records.register_relationship_definition(definition) {
            Err(e) => {
                proof {
                    assert(self@ =~= old(self)@);
                }
                Err(e)
            },
            Ok(done) => {
                proof {
                    assert(self@ =~= with_records(old(self)@, self.records@));
                }
                self.sync_derived_best_effort();
                Ok(done)
            },
        }
    }

    /// Changes what a Relationship definition says, never the facts under its key.
    pub fn update_relationship_definition(
        &mut self,
        key: &str,
        update: &RelationshipDefinitionUpdate,
    ) -> (r: Result<RelationshipDefinition, CoreError>)
        requires
            old(self).wf(),
        ensures
            final(self).wf(),
            answered(
                r,
                old(self)@,
                final(self)@,
                update_relationship_result(old(self)@.records, key@, *update),
            ),
            r is Ok ==> r->Ok_0@ == updated_relationship(old(self)@.records, key@, *update),
    {
        match self.assert_writable() {
            Err(e) => return Err(e),
            Ok(_) => {},
        }
        match self.records.update_relationship_definition(key, update) {
            Err(e) => {
                proof {
                    assert(self@ =~= old(self)@);
                }
                Err(e)
            },
            Ok(done) => {
                proof {
                    assert(self@ =~= with_records(old(self)@, self.records@));
                }
                self.sync_derived_best_effort();
                Ok(done)
            },
        }
    }

    /// Deprecates a Relationship definition.
    pub fn deprecate_relationship_definition(
        &mut self,
        key: &str,
        replacement: Option<&str>,
    ) -> (r: Result<RelationshipDefinition, CoreError>)
        requires
            old(self).wf(),
        ensures
            final(self).wf(),
            answered(
                r,
                old(self)@,
                final(self)@,
                deprecate_relationship_result(old(self)@.records, key@, optional_str(replacement)),
            ),
            r is Ok ==> r->Ok_0@ == deprecated_relationship(
                old(self)@.records,
                key@,
                optional_str(replacement),
            ),
    {
        match self.assert_writable() {
            Err(e) => return Err(e),
            Ok(_) => {},
        }
        match self.records.deprecate_relationship_definition(key, replacement) {
            Err(e) => {
                proof {
                    assert(self@ =~= old(self)@);
                }
                Err(e)
            },
            Ok(done) => {
                proof {
                    assert(self@ =~= with_records(old(self)@, self.records@));
                }
                self.sync_derived_best_effort();
                Ok(done)
            },
        }
    }

    /// Removes a Relationship definition that no fact uses.
    pub fn remove_relationship_definition(&mut self, key: &str) -> (r: Result<Commit, CoreError>)
        requires
            old(self).wf(),
        ensures
            final(self).wf(),
            answered(
                r,
                old(self)@,
                final(self)@,
                remove_relationship_result(old(self)@.records, key@),
            ),
            r is Ok ==> r->Ok_0.revision == remove_relationship_result(
                old(self)@.records,
                key@,
            )->Ok_0.revision && r->Ok_0.change_count == 1,
    {
        match self.assert_writable() {
            Err(e) => return Err(e),
            Ok(_) => {},
        }
        match self.records.remove_relationship_definition(key) {
            Err(e) => {
                proof {
                    assert(self@ =~= old(self)@);
                }
                Err(e)
            },
            Ok(done) => {
                proof {
                    assert(self@ =~= with_records(old(self)@, self.records@));
                }
                self.sync_derived_best_effort();
                Ok(done)
            },
        }
    }

    /// Brings the Index up to date with the Record Store.
    pub fn reconcile_index(&mut self) -> (r: Result<ReconcileOutcome, CoreError>)
        requires
            old(self).wf(),
        ensures
            final(self).wf(),
            match r {
                Ok(outcome) => {
                    &&& write_fault(old(self)@) is None
                    &&& reconcile_fault(old(self)@.index, old(self)@.records, old(self)@.failure)
                        is None
                    &&& outcome == reconcile_outcome(old(self)@.index, old(self)@.records)
                    &&& final(self)@ == synced(old(self)@)
                },
                Err(e) => match write_fault(old(self)@) {
                    Some(fault) => e@ == fault && final(self)@ == old(self)@,
                    None => reconcile_fault(
                        old(self)@.index,
                        old(self)@.records,
                        old(self)@.failure,
                    ) == Some(e@) && final(self)@ == synced(old(self)@),
                },
            },
    {
        match self.assert_writable() {
            Err(e) => return Err(e),
            Ok(_) => {},
        }
        let r = self.index.reconcile(&self.records);
        if r.is_ok() {
            self.records.prune_change_journal();
        }
        proof {
            assert(self@ =~= synced(old(self)@));
        }
        r
    }

    /// Builds the Index anew of the Record Store.
    pub fn rebuild_index(&mut self) -> (r: Result<ReconcileOutcome, CoreError>)
        requires
            old(self).wf(),
        ensures
            final(self).wf(),
            match r {
                Ok(outcome) => {
                    &&& write_fault(old(self)@) is None
                    &&& rebuild_fault(old(self)@.records, old(self)@.failure) is None
                    &&& outcome == (ReconcileOutcome::Rebuilt {
                        revision: old(self)@.records.revision,
                        reason: IndexRebuildReason::Requested,
                    })
                    &&& final(self)@ == (CoreModel {
                        records: pruned(old(self)@.records),
                        index: rebuilt_index(old(self)@.records),
                        ..old(self)@
                    })
                },
                Err(e) => match write_fault(old(self)@) {
                    Some(fault) => e@ == fault && final(self)@ == old(self)@,
                    None => rebuild_fault(old(self)@.records, old(self)@.failure) == Some(e@)
                        && final(self)@ == (CoreModel {
                        failure: left_by_rebuild(old(self)@.records, old(self)@.failure),
                        ..old(self)@
                    }),
                },
            },
    {
        match self.assert_writable() {
            Err(e) => return Err(e),
            Ok(_) => {},
        }
        match self.index.rebuild(&self.records, IndexRebuildReason::Requested) {
            Err(e) => {
                proof {
                    assert(self@ =~= (CoreModel {
                        failure: left_by_rebuild(old(self)@.records, old(self)@.failure),
                        ..old(self)@
                    }));
                }
                Err(e)
            },
            Ok(outcome) => {
                self.records.prune_change_journal();
                proof {
                    assert(self@ =~= (CoreModel {
                        records: pruned(old(self)@.records),
                        index: rebuilt_index(old(self)@.records),
                        ..old(self)@
                    }));
                }
                Ok(outcome)
            },
        }
    }

    /// What brings the recovery material up with the Record Store, where it is also looked at
    /// whether it reaches as far as it says.
    pub fn reconcile_recovery(&self, best: &Result<RecoveryPlan, CoreError>) -> (r: Result<
        RecoveryAction,
        CoreError,
    >)
        requires
            self.wf(),
        ensures
            match r {
                Ok(action) => write_fault(self@) is None && self@.manifest is Ok && action@
                    == reconcile_action(self@.manifest->Ok_0@, self@.records, *best),
                Err(e) => match write_fault(self@) {
                    Some(fault) => e@ == fault,
                    None => self@.manifest is Err && e@ == self@.manifest->Err_0@,
                },
            },
    {
        match self.assert_writable() {
            Err(e) => return Err(e),
            Ok(_) => {},
        }
        match &self.manifest {
            Ok(manifest) => Ok(
                crate::recovery::manager::reconcile(manifest, &self.records, best),
            ),
            Err(e) => Err(e.clone()),
        }
    }

    /// Replaces derived read models supplied by an above-Core capability.
    /// This never writes canonical Relationships or Properties.
    pub fn replace_content_projection(
        &mut self,
        documents: &[SearchDocumentInput],
        relationships: &[DerivedRelationshipInput],
    ) -> (r: Result<(), CoreError>)
        requires
            old(self).wf(),
        ensures
            final(self).wf(),
            ({
                let expected = add_content(
                    without_content(old(self)@.index),
                    documents@,
                    relationships@,
                );
                match r {
                    Ok(_) => write_fault(old(self)@) is None && expected is Ok && final(self)@ == (
                    CoreModel { index: expected->Ok_0, ..old(self)@ }),
                    Err(e) => final(self)@ == old(self)@ && match write_fault(old(self)@) {
                        Some(fault) => e@ == fault,
                        None => expected == Err::<IndexModel, ErrorView>(e@),
                    },
                }
            }),
    {
        match self.assert_writable() {
            Err(e) => return Err(e),
            Ok(_) => {},
        }
        let r = self.index.replace_content_projection(documents, relationships);
        proof {
            assert(self@ =~= (CoreModel { index: self.index@, ..old(self)@ }));
        }
        r
    }

    /// Replaces the derived rows for one content source after a normal edit.
    pub fn replace_node_content_projection(
        &mut self,
        node_id: NodeId,
        documents: &[SearchDocumentInput],
        relationships: &[DerivedRelationshipInput],
    ) -> (r: Result<(), CoreError>)
        requires
            old(self).wf(),
        ensures
            final(self).wf(),
            ({
                let expected = replace_node_result(
                    old(self)@.index,
                    node_id,
                    documents@,
                    relationships@,
                );
                match r {
                    Ok(_) => write_fault(old(self)@) is None && expected is Ok && final(self)@ == (
                    CoreModel { index: expected->Ok_0, ..old(self)@ }),
                    Err(e) => final(self)@ == old(self)@ && match write_fault(old(self)@) {
                        Some(fault) => e@ == fault,
                        None => expected == Err::<IndexModel, ErrorView>(e@),
                    },
                }
            }),
    {
        match self.assert_writable() {
            Err(e) => return Err(e),
            Ok(_) => {},
        }
        let r = self.index.replace_node_content_projection(node_id, documents, relationships);
        proof {
            assert(self@ =~= (CoreModel { index: self.index@, ..old(self)@ }));
        }
        r
    }

    /// Runs a caller-controlled sequence of bounded reads against one exact
    /// canonical snapshot.
    pub fn with_stable_read_snapshot<T, F>(&self, read: F) -> (r: Result<T, CoreError>) where
        F: FnOnce(&StableReadSnapshot<'_>) -> Result<T, CoreError>,

        requires
            self.wf(),
            forall|s: &StableReadSnapshot<'_>|
                s.wf() && s@ == self@.records ==> #[trigger] call_requires(read, (s,)),
        ensures
            exists|s: &StableReadSnapshot<'_>|
                s.wf() && s@ == self@.records && #[trigger] call_ensures(read, (s,), r),
    {
        self.records.with_stable_read_snapshot(read)
    }
}

impl CoreState {

    /// The Node of an ID.
    pub fn get_node(&self, id: NodeId) -> (r: Result<Node, CoreError>)
        requires
            self.wf(),
        ensures
            match r {
                Ok(node) => self@.records.nodes.dom().contains(id) && node.id == id
                    && node.lifecycle_state == self@.records.nodes[id].lifecycle_state,
                Err(e) => !self@.records.nodes.dom().contains(id) && e@ == no_node(id),
            },
            node_answers(r, self@.records, id),
    {
        self.records.get_node(id)
    }

    /// What an ID stands for.
    pub fn resolve_identity(&self, id: NodeId) -> (r: IdentityResolution)
        requires
            self.wf(),
        ensures
            r == resolution(self@.records, id),
    {
        self.records.resolve_identity(id)
    }

    /// The value that a Node has for a Property key, if it has one.
    pub fn get_property(&self, node_id: NodeId, key: &str) -> (r: Result<
        Option<PropertyValue>,
        CoreError,
    >)
        requires
            self.wf(),
        ensures
            match r {
                Err(e) => match key_fault(key@, KeyUse::Property) {
                    Some(fault) => e@ == fault,
                    None => !self@.records.nodes.dom().contains(node_id) && e@ == no_node(node_id),
                },
                Ok(found) => key_fault(key@, KeyUse::Property) is None
                    && self@.records.nodes.dom().contains(node_id) && match found {
                    Some(value) => self@.records.nodes[node_id].properties.dom().contains(key@) && value@
                        == self@.records.nodes[node_id].properties[key@].value,
                    None => !self@.records.nodes[node_id].properties.dom().contains(key@),
                },
            },
            property_answers(r, self@.records, node_id, key@),
    {
        self.records.get_property(node_id, key)
    }

    /// The Properties of a Node, in the order of their keys.
    pub fn list_properties(&self, node_id: NodeId) -> (r: Result<
        Vec<(String, PropertyValue)>,
        CoreError,
    >)
        requires
            self.wf(),
        ensures
            match r {
                Ok(pairs) => self@.records.nodes.dom().contains(node_id) && pairs_view(pairs@)
                    == property_list(self@.records.nodes[node_id].properties),
                Err(e) => !self@.records.nodes.dom().contains(node_id) && e@ == no_node(node_id),
            },
    {
        self.records.list_properties(node_id)
    }

    /// A window of the Properties of a Node, in the order of their keys.
    pub fn list_properties_page(&self, node_id: NodeId, page: ReadPage) -> (r: Result<
        Vec<(String, PropertyValue)>,
        CoreError,
    >)
        requires
            self.wf(),
        ensures
            match r {
                Ok(pairs) => self@.records.nodes.dom().contains(node_id) && page_fault(page) is None
                    && pairs_view(pairs@) == page_of(
                    property_list(self@.records.nodes[node_id].properties),
                    page,
                ),
                Err(e) => if !self@.records.nodes.dom().contains(node_id) {
                    e@ == no_node(node_id)
                } else {
                    page_fault(page) == Some(e@)
                },
            },
    {
        self.records.list_properties_page(node_id, page)
    }

    /// The Relationships of an issued ID.
    pub fn query_relationships(
        &self,
        node_id: NodeId,
        direction: RelationshipDirection,
        key: Option<&str>,
    ) -> (r: Result<Vec<Relationship>, CoreError>)
        requires
            self.wf(),
        ensures
            match r {
                Ok(items) => self@.records.issued.contains(node_id) && (key is Some ==> key_fault(
                    key->0@,
                    KeyUse::Relationship,
                ) is None) && relationships_view(items@) == relationship_list(
                    self@.records,
                    node_id,
                    direction,
                    optional_str(key),
                ),
                Err(e) => if !self@.records.issued.contains(node_id) {
                    e@ == never_issued(node_id)
                } else {
                    key is Some && key_fault(key->0@, KeyUse::Relationship) == Some(e@)
                },
            },
    {
        self.records.query_relationships(node_id, direction, key)
    }

    /// A window of the Relationships of an issued ID.
    pub fn query_relationships_page(
        &self,
        node_id: NodeId,
        direction: RelationshipDirection,
        key: Option<&str>,
        page: ReadPage,
    ) -> (r: Result<Vec<Relationship>, CoreError>)
        requires
            self.wf(),
        ensures
            match r {
                Ok(items) => self@.records.issued.contains(node_id) && (key is Some ==> key_fault(
                    key->0@,
                    KeyUse::Relationship,
                ) is None) && page_fault(page) is None && relationships_view(items@) == page_of(
                    relationship_list(self@.records, node_id, direction, optional_str(key)),
                    page,
                ),
                Err(e) => if !self@.records.issued.contains(node_id) {
                    e@ == never_issued(node_id)
                } else if key is Some && key_fault(key->0@, KeyUse::Relationship) is Some {
                    key_fault(key->0@, KeyUse::Relationship) == Some(e@)
                } else {
                    page_fault(page) == Some(e@)
                },
            },
    {
        self.records.query_relationships_page(node_id, direction, key, page)
    }

    /// The Property definition of a key.
    pub fn get_property_definition(&self, key: &str) -> (r: Result<PropertyDefinition, CoreError>)
        requires
            self.wf(),
        ensures
            match r {
                Ok(definition) => property_definition_missing(self@.records, key@) is None && definition@
                    == self@.records.property_definitions[key@].definition,
                Err(e) => property_definition_missing(self@.records, key@) == Some(e@),
            },
    {
        self.records.get_property_definition(key)
    }

    /// The Property definitions, in the order of their keys.
    pub fn list_property_definitions(&self) -> (r: Vec<PropertyDefinition>)
        requires
            self.wf(),
        ensures
            property_definitions_view(r@) == property_definition_list(self@.records),
    {
        self.records.list_property_definitions()
    }

    /// A window of the Property definitions, in the order of their keys.
    pub fn list_property_definitions_page(&self, page: ReadPage) -> (r: Result<
        Vec<PropertyDefinition>,
        CoreError,
    >)
        requires
            self.wf(),
        ensures
            match r {
                Ok(items) => page_fault(page) is None && property_definitions_view(items@) == page_of(
                    property_definition_list(self@.records),
                    page,
                ),
                Err(e) => page_fault(page) == Some(e@),
            },
    {
        self.records.list_property_definitions_page(page)
    }

    /// How many facts use a Property definition.
    pub fn property_definition_usage(&self, key: &str) -> (r: Result<DefinitionUsage, CoreError>)
        requires
            self.wf(),
        ensures
            match r {
                Ok(usage) => property_definition_missing(self@.records, key@) is None && usage.key@ == key@
                    && usage.fact_count == property_fact_count(self@.records, key@),
                Err(e) => property_definition_missing(self@.records, key@) == Some(e@),
            },
    {
        self.records.property_definition_usage(key)
    }

    /// The Relationship definition of a key.
    pub fn get_relationship_definition(
        &self,
        key: &str,
    ) -> (r: Result<RelationshipDefinition, CoreError>)
        requires
            self.wf(),
        ensures
            match r {
                Ok(definition) => relationship_definition_missing(self@.records, key@) is None && definition@
                    == self@.records.relationship_definitions[key@].definition,
                Err(e) => relationship_definition_missing(self@.records, key@) == Some(e@),
            },
    {
        self.records.get_relationship_definition(key)
    }

    /// The Relationship definitions, in the order of their keys.
    pub fn list_relationship_definitions(&self) -> (r: Vec<RelationshipDefinition>)
        requires
            self.wf(),
        ensures
            relationship_definitions_view(r@) == relationship_definition_list(self@.records),
    {
        self.records.list_relationship_definitions()
    }

    /// A window of the Relationship definitions, in the order of their keys.
    pub fn list_relationship_definitions_page(&self, page: ReadPage) -> (r: Result<
        Vec<RelationshipDefinition>,
        CoreError,
    >)
        requires
            self.wf(),
        ensures
            match r {
                Ok(items) => page_fault(page) is None && relationship_definitions_view(items@) == page_of(
                    relationship_definition_list(self@.records),
                    page,
                ),
                Err(e) => page_fault(page) == Some(e@),
            },
    {
        self.records.list_relationship_definitions_page(page)
    }

    /// How many facts use a Relationship definition.
    pub fn relationship_definition_usage(
        &self,
        key: &str,
    ) -> (r: Result<DefinitionUsage, CoreError>)
        requires
            self.wf(),
        ensures
            match r {
                Ok(usage) => relationship_definition_missing(self@.records, key@) is None && usage.key@ == key@
                    && usage.fact_count == relationship_fact_count(self@.records, key@),
                Err(e) => relationship_definition_missing(self@.records, key@) == Some(e@),
            },
    {
        self.records.relationship_definition_usage(key)
    }

    /// All Nodes, latest changes first.
    pub fn list_nodes(&self) -> (r: Vec<Node>)
        requires
            self.wf(),
        ensures
            nodes_of(r@, in_order::<NodePlace>(places(self@.index, u64::MAX)), self@.index),
    {
        self.index.list_nodes()
    }

    /// A window of the Nodes, latest changes first.
    pub fn list_nodes_page(&self, page: ReadPage) -> (r: Result<Vec<Node>, CoreError>)
        requires
            self.wf(),
        ensures
            match r {
                Ok(nodes) => page_fault(page) is None && nodes_of(
                    nodes@,
                    page_of(in_order::<NodePlace>(places(self@.index, u64::MAX)), page),
                    self@.index,
                ),
                Err(e) => page_fault(page) == Some(e@),
            },
    {
        self.index.list_nodes_page(page)
    }

    /// One page of a traversal of the Nodes, latest changes first. The traversal shows what was
    /// last changed by the revision it was begun at, so that later changes do not enter it.
    pub fn list_nodes_cursor(&self, limit: usize, cursor: Option<&ReadCursor>) -> (r: Result<
        CursorPage<Node>,
        CoreError,
    >)
        requires
            self.wf(),
        ensures
            match r {
                Ok(page) => {
                    let call = node_call(self@.index, limit, cursor_of(cursor), page.next_cursor);
                    answers(call) && nodes_of(page.items@, call.shown, self@.index)
                },
                Err(e) => traversal_read(cursor_of(cursor), self@.index.applied_revision) == Err::<
                    (u64, Option<NodePlace>),
                    ErrorView,
                >(e@),
            },
            resumes(cursor_of(cursor), self@.index.applied_revision),
    {
        self.index.list_nodes_cursor(limit, cursor)
    }

    /// The matches of a query, at most as many as it asks for.
    pub fn query_properties(&self, query: &PropertyQuery) -> (r: Result<
        Vec<IndexedPropertyMatch>,
        CoreError,
    >)
        requires
            self.wf(),
        ensures
            match r {
                Ok(items) => query_fault(*query) is None && matches_view(items@) == window(
                    match_list(self@.index, *query),
                    0,
                    query_limit(query.limit),
                ),
                Err(e) => query_fault(*query) == Some(e@),
            },
    {
        self.index.query_properties(query)
    }

    /// A window of the matches of a query.
    pub fn query_properties_page(&self, query: &PropertyQuery, page: ReadPage) -> (r: Result<
        Vec<IndexedPropertyMatch>,
        CoreError,
    >)
        requires
            self.wf(),
        ensures
            match r {
                Ok(items) => page_fault(page) is None && query_fault(*query) is None
                    && matches_view(items@) == window(
                    match_list(self@.index, *query),
                    page.offset as nat,
                    clamped_limit(page.limit),
                ),
                Err(e) => if page_fault(page) is Some {
                    page_fault(page) == Some(e@)
                } else {
                    query_fault(*query) == Some(e@)
                },
            },
    {
        self.index.query_properties_page(query, page)
    }

    /// The backlinks of a Node.
    pub fn backlinks(&self, node_id: NodeId) -> (r: Vec<IndexedRelationship>)
        requires
            self.wf(),
        ensures
            links_view(r@) == backlink_list(self@.index, node_id),
    {
        self.index.backlinks(node_id)
    }

    /// A window of the backlinks of a Node, canonical and derived ones together by key, then
    /// source, then provenance, then place.
    pub fn backlinks_page(&self, node_id: NodeId, page: ReadPage) -> (r: Result<
        Vec<IndexedRelationship>,
        CoreError,
    >)
        requires
            self.wf(),
        ensures
            match r {
                Ok(items) => page_fault(page) is None && links_view(items@) == links_shown(
                    self@.index,
                    node_id,
                    page_of(in_order::<LinkKey>(all_links(self@.index, node_id)), page),
                ),
                Err(e) => page_fault(page) == Some(e@),
            },
    {
        self.index.backlinks_page(node_id, page)
    }

    /// The graph: the active Nodes in the order of their IDs, and the edges between them.
    pub fn graph(&self) -> (r: GraphProjection)
        requires
            self.wf(),
        ensures
            graph_nodes_view(r.nodes@) == graph_node_list(self@.index),
            edges_view(r.edges@) == graph_edge_list(self@.index),
    {
        self.index.graph()
    }

    /// A window of the Nodes of the graph, by title and ID.
    pub fn graph_nodes_page(&self, page: ReadPage) -> (r: Result<Vec<GraphNode>, CoreError>)
        requires
            self.wf(),
        ensures
            match r {
                Ok(nodes) => page_fault(page) is None && graph_nodes_view(nodes@) == page_of(
                    node_page_list(self@.index),
                    page,
                ),
                Err(e) => page_fault(page) == Some(e@),
            },
    {
        self.index.graph_nodes_page(page)
    }

    /// A window of the edges of the graph.
    pub fn graph_edges_page(&self, page: ReadPage) -> (r: Result<Vec<GraphEdge>, CoreError>)
        requires
            self.wf(),
        ensures
            match r {
                Ok(edges) => page_fault(page) is None && edges_view(edges@) == page_of(
                    edge_page_list(self@.index),
                    page,
                ),
                Err(e) => page_fault(page) == Some(e@),
            },
    {
        self.index.graph_edges_page(page)
    }

    /// The active Nodes without an edge to another Node, in the order of their IDs.
    pub fn orphan_node_ids(&self) -> (r: Vec<NodeId>)
        requires
            self.wf(),
        ensures
            r@ == in_order::<NodeId>(orphans(self@.index)),
    {
        self.index.orphan_node_ids()
    }

    /// How many active Nodes have no Relationship at all.
    pub fn orphan_node_count(&self) -> (r: u64)
        requires
            self.wf(),
        ensures
            r == loose_ids(self@.index).len(),
    {
        self.index.orphan_node_count()
    }

    /// The first of the active Nodes without a Relationship.
    pub fn orphan_node_ids_limited(&self, limit: usize) -> (r: Result<Vec<NodeId>, CoreError>)
        requires
            self.wf(),
        ensures
            r is Ok && r->Ok_0@ == page_of(
                in_order::<NodeId>(loose_ids(self@.index)),
                ReadPage { offset: 0, limit },
            ),
    {
        self.index.orphan_node_ids_limited(limit)
    }

    /// A window of the active Nodes without a Relationship, in the order of their IDs.
    pub fn orphan_node_ids_page(&self, page: ReadPage) -> (r: Result<Vec<NodeId>, CoreError>)
        requires
            self.wf(),
        ensures
            match r {
                Ok(ids) => page_fault(page) is None && ids@ == page_of(
                    in_order::<NodeId>(loose_ids(self@.index)),
                    page,
                ),
                Err(e) => page_fault(page) == Some(e@),
            },
    {
        self.index.orphan_node_ids_page(page)
    }

}

/// Whatever becomes of the Index, a commit is kept: following it changes no fact, no issued ID and
/// no revision.
pub proof fn law_follow_up_keeps_the_commit(c: CoreModel)
    ensures
        without_journal(settled(c).records) == without_journal(c.records),
        settled(c).records.revision == c.records.revision,
        settled(c).boundary == c.boundary,
        forall|id: NodeId| #[trigger]
            resolution(settled(c).records, id) == resolution(c.records, id),
{
}

/// An Index that shows the Record Store shows it again after every commit, unless a failure is made
/// to happen.
pub proof fn law_index_follows_commits(before: CoreModel, m: RecordModel)
    requires
        consistent(before.records),
        consistent(m),
        leads(before.records, m),
        before.index.shows(before.records),
        before.failure is None,
    ensures
        settled(with_records(before, m)).index.shows(settled(with_records(before, m)).records),
        sync_of(settled(with_records(before, m))).state == IndexSyncState::Current,
{
    let h = seq![before.records, m];
    assert(is_history(h));
    law_reconcile_follows_history(before.index, h);
}

/// An Index that lags behind, for whatever reason, shows the Record Store again once it is
/// reconciled: by the journal, or anew.
pub proof fn law_lagging_index_catches_up(c: CoreModel, h: Seq<RecordModel>)
    requires
        is_history(h),
        c.index.shows(h[0]),
        c.records == h.last(),
        c.failure is None,
    ensures
        synced(c).index.shows(synced(c).records),
{
    law_opening_shows_records(c.index, h);
}

/// Whether a core is one that operations can have made: a consistent Record Store, and an Index
/// that shows the store as it is or as it was some commits ago.
pub open spec fn sound(c: CoreModel) -> bool {
    &&& consistent(c.records)
    &&& ends_at_revision(c.records)
    &&& exists|h: Seq<RecordModel>| #[trigger] is_history(h) && follows(c, h)
}

/// Whether an Index shows the beginning of a history that a Record Store is the end of.
pub open spec fn follows(c: CoreModel, h: Seq<RecordModel>) -> bool {
    c.index.shows(h[0]) && h.last() == c.records
}

/// A core without facts is sound.
pub proof fn law_new_core_is_sound(c: CoreModel)
    requires
        c.records == empty_model(),
        c.index == rebuilt_index(empty_model()),
    ensures
        sound(c),
{
    law_empty_is_consistent();
    law_rebuild_shows_records(empty_model());
    let h = seq![empty_model()];
    assert(is_history(h) && follows(c, h));
}

/// Bringing the Index up to date, whether it succeeds or fails, keeps a core sound.
pub proof fn law_sync_keeps_a_core_sound(c: CoreModel)
    requires
        sound(c),
    ensures
        sound(synced(c)),
        reconcile_fault(c.index, c.records, c.failure) is None ==> synced(c).index.shows(
            synced(c).records,
        ),
        c.failure is None ==> reconcile_fault(c.index, c.records, c.failure) is None,
{
    let h = choose|h: Seq<RecordModel>| #[trigger] is_history(h) && follows(c, h);
    law_opening_shows_records(c.index, h);
    law_prune_keeps_the_end(c.records);
    let d = synced(c);
    if reconcile_fault(c.index, c.records, c.failure) is None {
        assert(d.index.shows(d.records));
        let now = seq![d.records];
        assert(is_history(now) && follows(d, now));
    } else {
        assert(is_history(h) && follows(d, h));
    }
}

/// Every commit keeps a core sound, whatever becomes of the Index: however often it fails, it can
/// be brought up to date again.
pub proof fn law_commit_keeps_a_core_sound(c: CoreModel, m: RecordModel)
    requires
        sound(c),
        consistent(m),
        leads(c.records, m),
    ensures
        sound(with_records(c, m)),
        sound(settled(with_records(c, m))),
{
    let h = choose|h: Seq<RecordModel>| #[trigger] is_history(h) && follows(c, h);
    let longer = h.push(m);
    let d = with_records(c, m);
    let new = choose|new: Seq<ChangeView>| commits(c.records, m, new);
    law_commit_ends_the_journal(c.records, m, new);
    assert forall|i: int, j: int| 0 <= i && j == i + 1 && j < longer.len() implies leads(
        #[trigger] longer[i],
        #[trigger] longer[j],
    ) by {
        if j < h.len() {
            assert(leads(h[i], h[j]));
        }
    }
    assert(is_history(longer) && follows(d, longer));
    let e = with_recovery_work(d);
    assert(is_history(longer) && follows(e, longer));
    law_sync_keeps_a_core_sound(e);
}

} // verus!
