//! Building the Index anew, and bringing it up to date by a patch.
use vstd::prelude::*;
use crate::api::{IndexRebuildReason, ReconcileOutcome, Relationship, RelationshipView};
use crate::error::{CoreError, ErrorView};
use crate::id::NodeId;
use crate::index::model::{
    injected, DerivedKey, DerivedKeyView, DerivedRow, DerivedRowView, DocumentView, FailurePoint,
    IndexModel, IndexStore, IndexedNodeRow, IndexedNodeView, IndexedRelationshipRow,
};
use crate::record_store::history::{is_history, leads};
use crate::record_store::laws::{
    consistent, covers, facts_ok, node_ok, property_definition_ok, property_ok,
    relationship_definition_ok, relationship_ok,
};
use crate::record_store::model::{
    NodeRow, PropertyDefinitionRow, PropertyDefinitionRowView, RecordModel, RecordStore,
    RelationshipDefinitionRow, RelationshipDefinitionRowView, RelationshipRow,
};
use crate::record_store::projection::{
    delta_since, nodes_in, patch_of, property_definitions_in, relationship_definitions_in,
    relationships_in, slots, DeltaView, JournalDelta, PatchView, ProjectionPatch,
    ProjectionSnapshot,
};
use crate::table::{
    apply_changed, lemma_next_is_new, lookup, overlay, project_slots, project_table,
    projected_rows, projected_slots, Projects, Slot, Table, TableKey, TableRow,
};

verus! {

/// Whether the tables of the Index take a Node with these Properties.
pub open spec fn indexed_node_ok(row: IndexedNodeView) -> bool {
    &&& 0 < row.modified_revision <= i64::MAX
    &&& forall|k: Seq<char>| #[trigger]
        row.properties.dom().contains(k) ==> 0 < row.properties[k].modified_revision <= i64::MAX
}

/// Whether a table of definitions takes a row with this version and revision.
pub open spec fn indexed_definition_ok(version: u64, modified: u64) -> bool {
    0 < version <= i64::MAX && 0 < modified <= i64::MAX
}

/// Whether the tables of the Index take these rows.
pub open spec fn index_rows_ok(
    revision: u64,
    nodes: Map<NodeId, Option<IndexedNodeView>>,
    relationships: Map<RelationshipView, Option<u64>>,
    property_definitions: Map<Seq<char>, Option<PropertyDefinitionRowView>>,
    relationship_definitions: Map<Seq<char>, Option<RelationshipDefinitionRowView>>,
) -> bool {
    &&& revision <= i64::MAX
    &&& forall|id: NodeId| #[trigger]
        nodes.dom().contains(id) && nodes[id] is Some ==> indexed_node_ok(nodes[id]->0)
    &&& forall|r: RelationshipView| #[trigger]
        relationships.dom().contains(r) && relationships[r] is Some ==> 0 < relationships[r]->0
            <= i64::MAX
    &&& forall|k: Seq<char>| #[trigger]
        property_definitions.dom().contains(k) && property_definitions[k] is Some
            ==> indexed_definition_ok(
            property_definitions[k]->0.definition.version,
            property_definitions[k]->0.modified_revision,
        )
    &&& forall|k: Seq<char>| #[trigger]
        relationship_definitions.dom().contains(k) && relationship_definitions[k] is Some
            ==> indexed_definition_ok(
            relationship_definitions[k]->0.definition.version,
            relationship_definitions[k]->0.modified_revision,
        )
}

/// Every row as one that is there now.
pub open spec fn all_there<K, V>(rows: Map<K, V>) -> Map<K, Option<V>> {
    rows.map_values(|v: V| Some(v))
}

/// The Nodes of a patch as the Index keeps them.
pub open spec fn node_slots(p: PatchView) -> Map<NodeId, Option<IndexedNodeView>> {
    projected_slots::<NodeId, NodeRow, IndexedNodeRow>(p.nodes)
}

/// The Relationships of a patch as the Index keeps them.
pub open spec fn relationship_slots(p: PatchView) -> Map<RelationshipView, Option<u64>> {
    projected_slots::<RelationshipView, RelationshipRow, IndexedRelationshipRow>(p.relationships)
}

/// Whether the tables of the Index take what a patch brings.
pub open spec fn patch_fits(p: PatchView) -> bool {
    index_rows_ok(
        p.target_revision,
        node_slots(p),
        relationship_slots(p),
        p.property_definitions,
        p.relationship_definitions,
    )
}

/// Whether a patch says that a Node is gone.
pub open spec fn gone(p: PatchView, id: NodeId) -> bool {
    p.nodes.dom().contains(id) && p.nodes[id] is None
}

/// The documents of the Nodes that are not gone.
pub open spec fn documents_left(documents: Map<Seq<char>, DocumentView>, p: PatchView) -> Map<
    Seq<char>,
    DocumentView,
> {
    Map::new(
        |k: Seq<char>| documents.dom().contains(k) && !gone(p, documents[k].node_id),
        |k: Seq<char>| documents[k],
    )
}

/// The derived Relationships of the Nodes that are not gone; one that led to a Node that is gone
/// leads nowhere now.
pub open spec fn derived_left(derived: Map<DerivedKeyView, DerivedRowView>, p: PatchView) -> Map<
    DerivedKeyView,
    DerivedRowView,
> {
    Map::new(
        |k: DerivedKeyView| derived.dom().contains(k) && !gone(p, k.source),
        |k: DerivedKeyView|
            match derived[k].target {
                Some(target) => if gone(p, target) {
                    DerivedRowView { target: None, ..derived[k] }
                } else {
                    derived[k]
                },
                None => derived[k],
            },
    )
}

/// The Index after a patch.
pub open spec fn patched_index(x: IndexModel, p: PatchView) -> IndexModel {
    IndexModel {
        applied_revision: p.target_revision,
        nodes: overlay(x.nodes, node_slots(p)),
        relationships: overlay(x.relationships, relationship_slots(p)),
        property_definitions: overlay(x.property_definitions, p.property_definitions),
        relationship_definitions: overlay(x.relationship_definitions, p.relationship_definitions),
        documents: documents_left(x.documents, p),
        derived: derived_left(x.derived, p),
    }
}

/// The Index built anew of a Record Store: all of its facts, and no content.
pub open spec fn rebuilt_index(m: RecordModel) -> IndexModel {
    IndexModel {
        applied_revision: m.revision,
        nodes: projected_rows::<NodeId, NodeRow, IndexedNodeRow>(m.nodes),
        relationships: projected_rows::<
            RelationshipView,
            RelationshipRow,
            IndexedRelationshipRow,
        >(m.relationships),
        property_definitions: m.property_definitions,
        relationship_definitions: m.relationship_definitions,
        documents: Map::empty(),
        derived: Map::empty(),
    }
}

/// Whether the tables of the Index take all the facts of a Record Store.
pub open spec fn records_fit(m: RecordModel) -> bool {
    index_rows_ok(
        m.revision,
        all_there(rebuilt_index(m).nodes),
        all_there(rebuilt_index(m).relationships),
        all_there(m.property_definitions),
        all_there(m.relationship_definitions),
    )
}

/// A row that a table of the Index does not take.
pub open spec fn refused_row() -> ErrorView {
    ErrorView::Database("constraint failed"@)
}

fn refused_row_error() -> (r: CoreError)
    ensures
        r@ == refused_row(),
{
    CoreError::Database("constraint failed".to_owned())
}

fn is_revision(revision: u64) -> (r: bool)
    ensures
        r == (0 < revision <= i64::MAX),
{
    0 < revision && revision <= i64::MAX as u64
}

/// Whether the tables of the Index take a Node with these Properties.
fn is_indexed_node_ok(row: &IndexedNodeRow) -> (r: bool)
    requires
        row.properties.wf(),
    ensures
        r == indexed_node_ok(row@),
{
    if !is_revision(row.modified_revision) {
        return false;
    }
    let table = &row.properties;
    let mut i: usize = 0;
    while i < table.len()
        invariant
            table.wf(),
            table == &row.properties,
            i <= table.keys().len(),
            forall|j: int|
                0 <= j < i ==> 0 < table@[#[trigger] table.keys()[j]].modified_revision <= i64::MAX,
        decreases table.keys().len() - i,
    {
        proof {
            table.lemma_view();
            assert(row@.properties.dom().contains(table.keys()[i as int]));
        }
        if !is_revision(table.row_at(i).modified_revision) {
            return false;
        }
        i = i + 1;
    }
    proof {
        table.lemma_view();
        assert forall|k: Seq<char>| #[trigger] row@.properties.dom().contains(k) implies 0
            < row@.properties[k].modified_revision <= i64::MAX by {
            assert(table.keys().contains(k));
            let j = table.keys().index_of(k);
            assert(table.keys()[j] == k);
        }
    }
    true
}

/// A row that a table of the Index may refuse.
pub trait Checked: TableRow {
    spec fn fits(v: Self::V) -> bool;

    fn is_fit(&self) -> (r: bool)
        requires
            self.sound(),
        ensures
            r == Self::fits(self@),
    ;
}

impl Checked for IndexedNodeRow {
    open spec fn fits(v: IndexedNodeView) -> bool {
        indexed_node_ok(v)
    }

    fn is_fit(&self) -> (r: bool) {
        is_indexed_node_ok(self)
    }
}

impl Checked for IndexedRelationshipRow {
    open spec fn fits(v: u64) -> bool {
        0 < v <= i64::MAX
    }

    fn is_fit(&self) -> (r: bool) {
        is_revision(self.modified_revision)
    }
}

impl Checked for PropertyDefinitionRow {
    open spec fn fits(v: PropertyDefinitionRowView) -> bool {
        indexed_definition_ok(v.definition.version, v.modified_revision)
    }

    fn is_fit(&self) -> (r: bool) {
        is_revision(self.definition.version) && is_revision(self.modified_revision)
    }
}

impl Checked for RelationshipDefinitionRow {
    open spec fn fits(v: RelationshipDefinitionRowView) -> bool {
        indexed_definition_ok(v.definition.version, v.modified_revision)
    }

    fn is_fit(&self) -> (r: bool) {
        is_revision(self.definition.version) && is_revision(self.modified_revision)
    }
}

/// Whether every row that is there is taken.
fn slots_fit<K: TableKey, V: Checked>(table: &Table<K, Slot<V>>) -> (r: bool)
    requires
        table.wf(),
    ensures
        r == (forall|k: K::V| #[trigger]
            table@.dom().contains(k) && table@[k] is Some ==> V::fits(table@[k]->0)),
{
    let mut i: usize = 0;
    while i < table.len()
        invariant
            table.wf(),
            i <= table.keys().len(),
            forall|j: int|
                0 <= j < i ==> (table@[#[trigger] table.keys()[j]] is Some ==> V::fits(
                    table@[table.keys()[j]]->0,
                )),
        decreases table.keys().len() - i,
    {
        proof {
            table.lemma_view();
            assert(table@.dom().contains(table.keys()[i as int]));
        }
        match &table.row_at(i).row {
            None => {},
            Some(row) => if !row.is_fit() {
                return false;
            },
        }
        i = i + 1;
    }
    proof {
        table.lemma_view();
        assert forall|k: K::V| #[trigger]
            table@.dom().contains(k) && table@[k] is Some implies V::fits(table@[k]->0) by {
            assert(table.keys().contains(k));
            let j = table.keys().index_of(k);
            assert(table.keys()[j] == k);
        }
    }
    true
}

/// Whether every row is taken.
fn rows_fit<K: TableKey, V: Checked>(table: &Table<K, V>) -> (r: bool)
    requires
        table.wf(),
    ensures
        r == (forall|k: K::V| #[trigger]
            all_there(table@).dom().contains(k) && all_there(table@)[k] is Some ==> V::fits(
                all_there(table@)[k]->0,
            )),
{
    let mut i: usize = 0;
    while i < table.len()
        invariant
            table.wf(),
            i <= table.keys().len(),
            forall|j: int| 0 <= j < i ==> V::fits(table@[#[trigger] table.keys()[j]]),
        decreases table.keys().len() - i,
    {
        proof {
            table.lemma_view();
            assert(all_there(table@).dom().contains(table.keys()[i as int]));
        }
        if !table.row_at(i).is_fit() {
            return false;
        }
        i = i + 1;
    }
    proof {
        table.lemma_view();
        assert forall|k: K::V| #[trigger] all_there(table@).dom().contains(k) implies V::fits(
            all_there(table@)[k]->0,
        ) by {
            assert(table.keys().contains(k));
            let j = table.keys().index_of(k);
            assert(table.keys()[j] == k);
        }
    }
    true
}

/// Whether a patch says that a Node is gone.
fn is_gone(patch: &ProjectionPatch, id: &NodeId) -> (r: bool)
    requires
        patch.wf(),
    ensures
        r == gone(patch@, *id),
{
    match patch.nodes.get(id) {
        Some(slot) => slot.row.is_none(),
        None => false,
    }
}

/// Why a patch is not applied: a failure that was made to happen, or a row that no Index takes.
pub open spec fn patch_fault(p: PatchView, failure: Option<FailurePoint>) -> Option<ErrorView> {
    if failure == Some(FailurePoint::BeforeApply) {
        Some(injected(FailurePoint::BeforeApply))
    } else if !patch_fits(p) {
        Some(refused_row())
    } else if failure == Some(FailurePoint::BeforeCheckpoint) {
        Some(
            ErrorView::IndexUnavailable("injected failure before checkpoint advancement"@),
        )
    } else {
        None
    }
}

/// The failure that is still to happen once a patch was not applied.
pub open spec fn left_by_patch(failure: Option<FailurePoint>) -> Option<FailurePoint> {
    if failure == Some(FailurePoint::BeforeApply) || failure == Some(
        FailurePoint::BeforeCheckpoint,
    ) {
        None
    } else {
        failure
    }
}

/// Why an Index is not built anew.
pub open spec fn rebuild_fault(m: RecordModel, failure: Option<FailurePoint>) -> Option<
    ErrorView,
> {
    if failure == Some(FailurePoint::DuringRebuild) {
        Some(injected(FailurePoint::DuringRebuild))
    } else if !records_fit(m) {
        Some(refused_row())
    } else if failure == Some(FailurePoint::BeforePromotion) {
        Some(injected(FailurePoint::BeforePromotion))
    } else {
        None
    }
}

/// The failure that is still to happen once an Index was not built anew.
pub open spec fn left_by_rebuild(m: RecordModel, failure: Option<FailurePoint>) -> Option<
    FailurePoint,
> {
    if failure == Some(FailurePoint::DuringRebuild) || (records_fit(m) && failure == Some(
        FailurePoint::BeforePromotion,
    )) {
        None
    } else {
        failure
    }
}

/// Why an Index is not brought up to date with a Record Store.
pub open spec fn reconcile_fault(
    x: IndexModel,
    m: RecordModel,
    failure: Option<FailurePoint>,
) -> Option<ErrorView> {
    match delta_since(m, x.applied_revision) {
        DeltaView::Current(_) => None,
        DeltaView::Available(p) => patch_fault(p, failure),
        DeltaView::Unavailable { .. } => rebuild_fault(m, failure),
    }
}

/// The failure that is still to happen once an Index was not brought up to date.
pub open spec fn left_by_reconcile(
    x: IndexModel,
    m: RecordModel,
    failure: Option<FailurePoint>,
) -> Option<FailurePoint> {
    match delta_since(m, x.applied_revision) {
        DeltaView::Current(_) => failure,
        DeltaView::Available(_) => left_by_patch(failure),
        DeltaView::Unavailable { .. } => left_by_rebuild(m, failure),
    }
}

/// An Index that is brought up to date with a Record Store: by its journal where that reaches back
/// to what the Index shows, and otherwise by building it anew.
pub open spec fn reconciled(x: IndexModel, m: RecordModel) -> IndexModel {
    match delta_since(m, x.applied_revision) {
        DeltaView::Current(_) => x,
        DeltaView::Available(p) => patched_index(x, p),
        DeltaView::Unavailable { .. } => rebuilt_index(m),
    }
}

/// How an Index is brought up to date with a Record Store.
pub open spec fn reconcile_outcome(x: IndexModel, m: RecordModel) -> ReconcileOutcome {
    match delta_since(m, x.applied_revision) {
        DeltaView::Current(revision) => ReconcileOutcome::Current { revision },
        DeltaView::Available(p) => ReconcileOutcome::Incremental {
            from_revision: p.from_revision,
            to_revision: p.target_revision,
            change_count: p.change_count as usize,
        },
        DeltaView::Unavailable { current_revision } => ReconcileOutcome::Rebuilt {
            revision: current_revision,
            reason: IndexRebuildReason::JournalUnavailable,
        },
    }
}

impl IndexStore {
    /// The documents of the Nodes that are not gone.
    fn documents_kept(&self, patch: &ProjectionPatch) -> (r: Table<
        String,
        crate::api::SearchDocumentInput,
    >)
        requires
            self.wf(),
            patch.wf(),
        ensures
            r.wf(),
            r@ == documents_left(self@.documents, patch@),
    {
        let table = &self.documents;
        let ghost target = documents_left(table@, patch@);
        let mut r: Table<String, crate::api::SearchDocumentInput> = Table::new();
        let mut i: usize = 0;
        while i < table.len()
            invariant
                table.wf(),
                patch.wf(),
                r.wf(),
                target == documents_left(table@, patch@),
                i <= table.keys().len(),
                forall|k: Seq<char>| #[trigger]
                    r@.dom().contains(k) <==> table.keys().subrange(0, i as int).contains(k)
                        && target.dom().contains(k),
                forall|k: Seq<char>| #[trigger] r@.dom().contains(k) ==> r@[k] == target[k],
            decreases table.keys().len() - i,
        {
            proof {
                table.lemma_view();
                lemma_next_is_new::<String>(table.keys(), i as int);
            }
            let row = table.row_at(i);
            if !is_gone(patch, &row.node_id) {
                r.insert(table.key_at(i).clone(), row.clone());
            }
            i = i + 1;
        }
        proof {
            table.lemma_view();
            assert(table.keys().subrange(0, i as int) =~= table.keys());
            assert(r@ =~= target);
        }
        r
    }

    /// The derived Relationships of the Nodes that are not gone.
    fn derived_kept(&self, patch: &ProjectionPatch) -> (r: Table<DerivedKey, DerivedRow>)
        requires
            self.wf(),
            patch.wf(),
        ensures
            r.wf(),
            r@ == derived_left(self@.derived, patch@),
    {
        let table = &self.derived;
        let ghost target = derived_left(table@, patch@);
        let mut r: Table<DerivedKey, DerivedRow> = Table::new();
        let mut i: usize = 0;
        while i < table.len()
            invariant
                table.wf(),
                patch.wf(),
                r.wf(),
                target == derived_left(table@, patch@),
                i <= table.keys().len(),
                forall|k: DerivedKeyView| #[trigger]
                    r@.dom().contains(k) <==> table.keys().subrange(0, i as int).contains(k)
                        && target.dom().contains(k),
                forall|k: DerivedKeyView| #[trigger] r@.dom().contains(k) ==> r@[k] == target[k],
            decreases table.keys().len() - i,
        {
            proof {
                table.lemma_view();
                lemma_next_is_new::<DerivedKey>(table.keys(), i as int);
            }
            let key = table.key_at(i);
            if !is_gone(patch, &key.source) {
                let mut row = table.row_at(i).clone();
                let lost = match &row.target {
                    Some(target) => is_gone(patch, target),
                    None => false,
                };
                if lost {
                    row.target = None;
                }
                r.insert(key.clone(), row);
            }
            i = i + 1;
        }
        proof {
            table.lemma_view();
            assert(table.keys().subrange(0, i as int) =~= table.keys());
            assert(r@ =~= target);
        }
        r
    }

    /// Brings the Index up to date by a patch: all of it, or, where it fails, nothing.
    pub fn apply_patch(&mut self, patch: &ProjectionPatch) -> (r: Result<
        ReconcileOutcome,
        CoreError,
    >)
        requires
            old(self).wf(),
            patch.wf(),
        ensures
            final(self).wf(),
            match r {
                Ok(outcome) => {
                    &&& patch_fault(patch@, old(self).failure()) is None
                    &&& final(self)@ == patched_index(old(self)@, patch@)
                    &&& final(self).failure() == old(self).failure()
                    &&& outcome == (ReconcileOutcome::Incremental {
                        from_revision: patch.from_revision,
                        to_revision: patch.target_revision,
                        change_count: patch.change_count,
                    })
                },
                Err(e) => {
                    &&& patch_fault(patch@, old(self).failure()) == Some(e@)
                    &&& final(self)@ == old(self)@
                    &&& final(self).failure() == left_by_patch(old(self).failure())
                },
            },
    {
        match self.fail_if(FailurePoint::BeforeApply) {
            Err(e) => return Err(e),
            Ok(_) => {},
        }
        let fail_before_checkpoint = self.take_failure(FailurePoint::BeforeCheckpoint);
        let nodes = project_slots::<NodeId, NodeRow, IndexedNodeRow>(&patch.nodes);
        let relationships = project_slots::<Relationship, RelationshipRow, IndexedRelationshipRow>(
            &patch.relationships,
        );
        if patch.target_revision > i64::MAX as u64 || !slots_fit(&nodes) || !slots_fit(
            &relationships,
        ) || !slots_fit(&patch.property_definitions) || !slots_fit(
            &patch.relationship_definitions,
        ) {
            return Err(refused_row_error());
        }
        if fail_before_checkpoint {
            return Err(
                CoreError::IndexUnavailable(
                    "injected failure before checkpoint advancement".to_owned(),
                ),
            );
        }
        let documents = self.documents_kept(patch);
        let derived = self.derived_kept(patch);
        apply_changed(&mut self.nodes, &nodes);
        apply_changed(&mut self.relationships, &relationships);
        apply_changed(&mut self.property_definitions, &patch.property_definitions);
        apply_changed(&mut self.relationship_definitions, &patch.relationship_definitions);
        self.documents = documents;
        self.derived = derived;
        self.applied_revision = patch.target_revision;
        Ok(
            ReconcileOutcome::Incremental {
                from_revision: patch.from_revision,
                to_revision: patch.target_revision,
                change_count: patch.change_count,
            },
        )
    }

    /// Sets the Index to all the facts of a snapshot, without content.
    pub fn replace_projection(&mut self, snapshot: &ProjectionSnapshot) -> (r: Result<
        (),
        CoreError,
    >)
        requires
            old(self).wf(),
            snapshot.wf(),
        ensures
            final(self).wf(),
            match r {
                Ok(_) => {
                    &&& old(self).failure() != Some(FailurePoint::DuringRebuild)
                    &&& final(self).failure() == old(self).failure()
                    &&& forall|m: RecordModel| #[trigger]
                        snapshot.shows(m) ==> records_fit(m) && final(self)@ == rebuilt_index(m)
                },
                Err(e) => {
                    &&& final(self)@ == old(self)@
                    &&& if old(self).failure() == Some(FailurePoint::DuringRebuild) {
                        e@ == injected(FailurePoint::DuringRebuild) && final(self).failure() is None
                    } else {
                        &&& e@ == refused_row()
                        &&& final(self).failure() == old(self).failure()
                        &&& forall|m: RecordModel| #[trigger]
                            snapshot.shows(m) ==> !records_fit(m)
                    }
                },
            },
    {
        match self.fail_if(FailurePoint::DuringRebuild) {
            Err(e) => return Err(e),
            Ok(_) => {},
        }
        let nodes = project_table::<NodeId, NodeRow, IndexedNodeRow>(&snapshot.nodes);
        let relationships = project_table::<Relationship, RelationshipRow, IndexedRelationshipRow>(
            &snapshot.relationships,
        );
        if snapshot.revision > i64::MAX as u64 || !rows_fit(&nodes) || !rows_fit(&relationships)
            || !rows_fit(&snapshot.property_definitions) || !rows_fit(
            &snapshot.relationship_definitions,
        ) {
            return Err(refused_row_error());
        }
        self.nodes = nodes;
        self.relationships = relationships;
        self.property_definitions = snapshot.property_definitions.copy();
        self.relationship_definitions = snapshot.relationship_definitions.copy();
        self.documents = Table::new();
        self.derived = Table::new();
        self.applied_revision = snapshot.revision;
        Ok(())
    }

    /// Builds the Index anew of a Record Store: a candidate is built beside it and takes its place
    /// only once it shows what it should; where that fails, the Index stays as it was.
    pub fn rebuild(&mut self, records: &RecordStore, reason: IndexRebuildReason) -> (r: Result<
        ReconcileOutcome,
        CoreError,
    >)
        requires
            old(self).wf(),
            records.wf(),
        ensures
            final(self).wf(),
            match r {
                Ok(outcome) => {
                    &&& rebuild_fault(records@, old(self).failure()) is None
                    &&& final(self)@ == rebuilt_index(records@)
                    &&& final(self).failure() == old(self).failure()
                    &&& outcome == (ReconcileOutcome::Rebuilt {
                        revision: records@.revision,
                        reason,
                    })
                },
                Err(e) => {
                    &&& rebuild_fault(records@, old(self).failure()) == Some(e@)
                    &&& final(self)@ == old(self)@
                    &&& final(self).failure() == left_by_rebuild(records@, old(self).failure())
                },
            },
    {
        match self.fail_if(FailurePoint::DuringRebuild) {
            Err(e) => return Err(e),
            Ok(_) => {},
        }
        let snapshot = records.projection_snapshot();
        proof {
            assert(snapshot.shows(records@));
        }
        let mut candidate = IndexStore::new();
        match candidate.replace_projection(&snapshot) {
            Err(e) => return Err(e),
            Ok(_) => {},
        }
        match self.fail_if(FailurePoint::BeforePromotion) {
            Err(e) => return Err(e),
            Ok(_) => {},
        }
        candidate.failure_point = self.failure_point;
        *self = candidate;
        Ok(ReconcileOutcome::Rebuilt { revision: snapshot.revision, reason })
    }

    /// Brings the Index up to date with a Record Store: by its journal where that reaches back to
    /// what the Index shows, and otherwise by building it anew.
    pub fn reconcile(&mut self, records: &RecordStore) -> (r: Result<ReconcileOutcome, CoreError>)
        requires
            old(self).wf(),
            records.wf(),
        ensures
            final(self).wf(),
            match r {
                Ok(outcome) => {
                    &&& reconcile_fault(old(self)@, records@, old(self).failure()) is None
                    &&& final(self)@ == reconciled(old(self)@, records@)
                    &&& final(self).failure() == old(self).failure()
                    &&& outcome == reconcile_outcome(old(self)@, records@)
                },
                Err(e) => {
                    &&& reconcile_fault(old(self)@, records@, old(self).failure()) == Some(e@)
                    &&& final(self)@ == old(self)@
                    &&& final(self).failure() == left_by_reconcile(
                        old(self)@,
                        records@,
                        old(self).failure(),
                    )
                },
            },
    {
        match records.projection_delta_since(self.applied_revision) {
            JournalDelta::Current(revision) => Ok(ReconcileOutcome::Current { revision }),
            JournalDelta::Available(patch) => self.apply_patch(&patch),
            JournalDelta::Unavailable { current_revision: _ } => self.rebuild(
                records,
                IndexRebuildReason::JournalUnavailable,
            ),
        }
    }
}

/// What a projection of rows shows after some of them changed is what shows of the rows after the
/// changes.
proof fn lemma_projected_overlay<K, V: Projects<W>, W: TableRow>(
    was: Map<K, V::V>,
    now: Map<K, V::V>,
    keys: Set<K>,
)
    requires
        forall|k: K| !keys.contains(k) ==> #[trigger] lookup(now, k) == lookup(was, k),
    ensures
        overlay(
            projected_rows::<K, V, W>(was),
            projected_slots::<K, V, W>(slots(keys, now)),
        ) == projected_rows::<K, V, W>(now),
{
    let a = projected_rows::<K, V, W>(was);
    let changed = projected_slots::<K, V, W>(slots(keys, now));
    let b = projected_rows::<K, V, W>(now);
    let result = overlay(a, changed);
    assert forall|k: K| result.dom().contains(k) <==> b.dom().contains(k) by {
        if !keys.contains(k) {
            assert(lookup(now, k) == lookup(was, k));
        }
    }
    assert forall|k: K| result.dom().contains(k) implies result[k] == b[k] by {
        if !keys.contains(k) {
            assert(lookup(now, k) == lookup(was, k));
        }
    }
    assert(result =~= b);
}

proof fn lemma_plain_overlay<K, V>(was: Map<K, V>, now: Map<K, V>, keys: Set<K>)
    requires
        forall|k: K| !keys.contains(k) ==> #[trigger] lookup(now, k) == lookup(was, k),
    ensures
        overlay(was, slots(keys, now)) == now,
{
    let result = overlay(was, slots(keys, now));
    assert forall|k: K| result.dom().contains(k) <==> now.dom().contains(k) by {
        if !keys.contains(k) {
            assert(lookup(now, k) == lookup(was, k));
        }
    }
    assert forall|k: K| result.dom().contains(k) implies result[k] == now[k] by {
        if !keys.contains(k) {
            assert(lookup(now, k) == lookup(was, k));
        }
    }
    assert(result =~= now);
}

/// An Index that shows a Record Store shows it again, at its later content, after the patch of
/// everything that changed between: bringing it up to date and building it anew show the same.
pub proof fn law_patch_keeps_index_current(
    x: IndexModel,
    a: RecordModel,
    b: RecordModel,
    changes: Seq<crate::record_store::model::ChangeView>,
)
    requires
        x.shows(a),
        covers(a, b, changes),
        facts_ok(b),
    ensures
        patch_fits(patch_of(b, a.revision, changes)),
        patched_index(x, patch_of(b, a.revision, changes)).shows(b),
        ({
            let y = patched_index(x, patch_of(b, a.revision, changes));
            &&& y.nodes == rebuilt_index(b).nodes
            &&& y.relationships == rebuilt_index(b).relationships
            &&& y.property_definitions == rebuilt_index(b).property_definitions
            &&& y.relationship_definitions == rebuilt_index(b).relationship_definitions
        }),
{
    let p = patch_of(b, a.revision, changes);
    lemma_projected_overlay::<NodeId, NodeRow, IndexedNodeRow>(
        a.nodes,
        b.nodes,
        nodes_in(changes),
    );
    lemma_projected_overlay::<RelationshipView, RelationshipRow, IndexedRelationshipRow>(
        a.relationships,
        b.relationships,
        relationships_in(changes),
    );
    lemma_plain_overlay(
        a.property_definitions,
        b.property_definitions,
        property_definitions_in(changes),
    );
    lemma_plain_overlay(
        a.relationship_definitions,
        b.relationship_definitions,
        relationship_definitions_in(changes),
    );
    assert(patch_fits(p)) by {
        assert forall|id: NodeId| #[trigger]
            node_slots(p).dom().contains(id) && node_slots(p)[id] is Some implies indexed_node_ok(
            node_slots(p)[id]->0,
        ) by {
            assert(b.nodes.dom().contains(id));
            assert(node_ok(b, id));
            assert forall|k: Seq<char>| #[trigger]
                b.nodes[id].properties.dom().contains(k) implies 0
                < b.nodes[id].properties[k].modified_revision <= i64::MAX by {
                assert(property_ok(k, b.nodes[id].properties[k], b.revision));
            }
        }
        assert forall|r: RelationshipView| #[trigger]
            relationship_slots(p).dom().contains(r)
                && relationship_slots(p)[r] is Some implies 0 < relationship_slots(p)[r]->0
            <= i64::MAX by {
            assert(b.relationships.dom().contains(r));
            assert(relationship_ok(b, r));
        }
        assert forall|k: Seq<char>| #[trigger]
            p.property_definitions.dom().contains(k)
                && p.property_definitions[k] is Some implies indexed_definition_ok(
            p.property_definitions[k]->0.definition.version,
            p.property_definitions[k]->0.modified_revision,
        ) by {
            assert(b.property_definitions.dom().contains(k));
            assert(property_definition_ok(b, k));
        }
        assert forall|k: Seq<char>| #[trigger]
            p.relationship_definitions.dom().contains(k)
                && p.relationship_definitions[k] is Some implies indexed_definition_ok(
            p.relationship_definitions[k]->0.definition.version,
            p.relationship_definitions[k]->0.modified_revision,
        ) by {
            assert(b.relationship_definitions.dom().contains(k));
            assert(relationship_definition_ok(b, k));
        }
    }
}

/// The facts of a consistent Record Store always fit, and the Index built of them shows them.
pub proof fn law_rebuild_shows_records(m: RecordModel)
    requires
        facts_ok(m),
    ensures
        records_fit(m),
        rebuilt_index(m).shows(m),
        rebuilt_index(m).content_ok(),
{
    let x = rebuilt_index(m);
    assert forall|id: NodeId| #[trigger] all_there(x.nodes).dom().contains(id) implies indexed_node_ok(
        all_there(x.nodes)[id]->0,
    ) by {
        assert(m.nodes.dom().contains(id));
        assert(node_ok(m, id));
        assert forall|k: Seq<char>| #[trigger] m.nodes[id].properties.dom().contains(k) implies 0
            < m.nodes[id].properties[k].modified_revision <= i64::MAX by {
            assert(property_ok(k, m.nodes[id].properties[k], m.revision));
        }
    }
    assert forall|r: RelationshipView| #[trigger]
        all_there(x.relationships).dom().contains(r) implies 0 < all_there(x.relationships)[r]->0
        <= i64::MAX by {
        assert(m.relationships.dom().contains(r));
        assert(relationship_ok(m, r));
    }
    assert forall|k: Seq<char>| #[trigger]
        all_there(m.property_definitions).dom().contains(k) implies indexed_definition_ok(
        all_there(m.property_definitions)[k]->0.definition.version,
        all_there(m.property_definitions)[k]->0.modified_revision,
    ) by {
        assert(m.property_definitions.dom().contains(k));
        assert(property_definition_ok(m, k));
    }
    assert forall|k: Seq<char>| #[trigger]
        all_there(m.relationship_definitions).dom().contains(k) implies indexed_definition_ok(
        all_there(m.relationship_definitions)[k]->0.definition.version,
        all_there(m.relationship_definitions)[k]->0.modified_revision,
    ) by {
        assert(m.relationship_definitions.dom().contains(k));
        assert(relationship_definition_ok(m, k));
    }
}

/// At the end of any history, an Index that showed its beginning and is brought up to date by the
/// journal shows its end.
pub proof fn law_reconcile_follows_history(x: IndexModel, h: Seq<RecordModel>)
    requires
        is_history(h),
        h.len() > 1,
        x.shows(h[0]),
    ensures
        ({
            let d = delta_since(h.last(), h[0].revision);
            &&& d is Available
            &&& patch_fits(d->Available_0)
            &&& patched_index(x, d->Available_0).shows(h.last())
        }),
{
    let all = crate::record_store::history::lemma_delta_of_history(h);
    assert(consistent(h[h.len() - 1]));
    law_patch_keeps_index_current(x, h[0], h.last(), all);
}

/// A patch leaves no content of Nodes that are gone, and keeps all other content.
pub proof fn law_patch_keeps_content_ok(x: IndexModel, p: PatchView)
    requires
        x.content_ok(),
    ensures
        patched_index(x, p).content_ok(),
{
    let y = patched_index(x, p);
    assert forall|k: Seq<char>| #[trigger] y.documents.dom().contains(k) implies y.nodes.dom().contains(
        y.documents[k].node_id,
    ) && y.documents[k].document_key == k by {
        assert(x.documents.dom().contains(k));
    }
    assert forall|k: DerivedKeyView| #[trigger] y.derived.dom().contains(k) implies y.nodes.dom().contains(
        k.source,
    ) && match y.derived[k].target {
        Some(target) => y.nodes.dom().contains(target),
        None => true,
    } by {
        assert(x.derived.dom().contains(k));
    }
}

} // verus!
