//! What the Index holds.
use vstd::prelude::*;
use crate::api::{
    clone_optional_text, optional_text, Relationship, RelationshipView, SearchDocumentInput,
};
use crate::error::{CoreError, ErrorView};
use crate::id::NodeId;
use crate::node::LifecycleState;
use crate::record_store::model::{
    NodeRow, NodeRowView, PropertyDefinitionRow, PropertyDefinitionRowView, PropertyRow,
    PropertyRowView, RecordModel, RelationshipDefinitionRow, RelationshipDefinitionRowView,
    RelationshipRow,
};
use crate::table::{projected_rows, Projects, Table, TableKey, TableRow};
use crate::text::{
    join2, lemma_text_before_irreflexive, lemma_text_before_total, lemma_text_before_transitive,
    same_text, str_before, text_before,
};

verus! {

/// A Node as the Index shows it.
pub struct IndexedNodeRow {
    pub lifecycle_state: LifecycleState,
    pub modified_revision: u64,
    pub properties: Table<String, PropertyRow>,
}

/// A Node as the Index shows it, its Properties taken as a map.
#[verifier::ext_equal]
pub struct IndexedNodeView {
    pub lifecycle_state: LifecycleState,
    pub modified_revision: u64,
    pub properties: Map<Seq<char>, PropertyRowView>,
}

impl View for IndexedNodeRow {
    type V = IndexedNodeView;

    open spec fn view(&self) -> IndexedNodeView {
        IndexedNodeView {
            lifecycle_state: self.lifecycle_state,
            modified_revision: self.modified_revision,
            properties: self.properties@,
        }
    }
}

impl TableRow for IndexedNodeRow {
    open spec fn sound(&self) -> bool {
        self.properties.wf()
    }

    fn copy_row(&self) -> (r: IndexedNodeRow) {
        IndexedNodeRow {
            lifecycle_state: self.lifecycle_state,
            modified_revision: self.modified_revision,
            properties: self.properties.copy(),
        }
    }
}

impl Projects<IndexedNodeRow> for NodeRow {
    open spec fn projected(row: NodeRowView) -> IndexedNodeView {
        IndexedNodeView {
            lifecycle_state: row.lifecycle_state,
            modified_revision: row.modified_revision,
            properties: row.properties,
        }
    }

    fn project(&self) -> (r: IndexedNodeRow) {
        IndexedNodeRow {
            lifecycle_state: self.lifecycle_state,
            modified_revision: self.modified_revision,
            properties: self.properties.copy(),
        }
    }
}

/// When a canonical Relationship was changed.
#[derive(Debug, Clone, Copy, PartialEq, Eq, Structural)]
pub struct IndexedRelationshipRow {
    pub modified_revision: u64,
}

impl View for IndexedRelationshipRow {
    type V = u64;

    open spec fn view(&self) -> u64 {
        self.modified_revision
    }
}

impl TableRow for IndexedRelationshipRow {
    open spec fn sound(&self) -> bool {
        true
    }

    fn copy_row(&self) -> (r: IndexedRelationshipRow) {
        *self
    }
}

impl Projects<IndexedRelationshipRow> for RelationshipRow {
    open spec fn projected(row: RelationshipRow) -> u64 {
        row.modified_revision
    }

    fn project(&self) -> (r: IndexedRelationshipRow) {
        IndexedRelationshipRow { modified_revision: self.modified_revision }
    }
}

/// A search document, its texts taken as sequences of characters.
pub struct DocumentView {
    pub document_key: Seq<char>,
    pub node_id: NodeId,
    pub source_kind: Seq<char>,
    pub title: Seq<char>,
    pub body: Seq<char>,
    pub metadata: Seq<char>,
    pub source_locator: Option<Seq<char>>,
    pub source_fingerprint: Seq<char>,
}

impl View for SearchDocumentInput {
    type V = DocumentView;

    open spec fn view(&self) -> DocumentView {
        DocumentView {
            document_key: self.document_key@,
            node_id: self.node_id,
            source_kind: self.source_kind@,
            title: self.title@,
            body: self.body@,
            metadata: self.metadata@,
            source_locator: optional_text(self.source_locator),
            source_fingerprint: self.source_fingerprint@,
        }
    }
}

impl Clone for SearchDocumentInput {
    fn clone(&self) -> (r: SearchDocumentInput)
        ensures
            r@ == self@,
    {
        SearchDocumentInput {
            document_key: self.document_key.clone(),
            node_id: self.node_id,
            source_kind: self.source_kind.clone(),
            title: self.title.clone(),
            body: self.body.clone(),
            metadata: self.metadata.clone(),
            source_locator: clone_optional_text(&self.source_locator),
            source_fingerprint: self.source_fingerprint.clone(),
        }
    }
}

impl TableRow for SearchDocumentInput {
    open spec fn sound(&self) -> bool {
        true
    }

    fn copy_row(&self) -> (r: SearchDocumentInput) {
        self.clone()
    }
}

/// Where a Relationship was found in the content of a Node.
#[derive(Debug, PartialEq, Eq)]
pub struct DerivedKey {
    pub source: NodeId,
    pub relationship_key: String,
    pub start_offset: usize,
    pub end_offset: usize,
    pub source_kind: String,
    pub parser: String,
}

/// Where a Relationship was found, the texts taken as sequences of characters.
pub struct DerivedKeyView {
    pub source: NodeId,
    pub relationship_key: Seq<char>,
    pub start_offset: usize,
    pub end_offset: usize,
    pub source_kind: Seq<char>,
    pub parser: Seq<char>,
}

impl View for DerivedKey {
    type V = DerivedKeyView;

    open spec fn view(&self) -> DerivedKeyView {
        DerivedKeyView {
            source: self.source,
            relationship_key: self.relationship_key@,
            start_offset: self.start_offset,
            end_offset: self.end_offset,
            source_kind: self.source_kind@,
            parser: self.parser@,
        }
    }
}

/// The order of two places in the content of one Node, for one Relationship key: by start, then
/// end, then kind of source, then parser.
pub open spec fn spot_before(a: DerivedKeyView, b: DerivedKeyView) -> bool {
    if a.start_offset != b.start_offset {
        a.start_offset < b.start_offset
    } else if a.end_offset != b.end_offset {
        a.end_offset < b.end_offset
    } else if a.source_kind != b.source_kind {
        text_before(a.source_kind, b.source_kind)
    } else {
        text_before(a.parser, b.parser)
    }
}

/// Whether two places in the content of one Node, for one Relationship key, are the same.
pub open spec fn same_spot(a: DerivedKeyView, b: DerivedKeyView) -> bool {
    a.start_offset == b.start_offset && a.end_offset == b.end_offset && a.source_kind
        == b.source_kind && a.parser == b.parser
}

pub proof fn lemma_spot_irreflexive(a: DerivedKeyView)
    ensures
        !spot_before(a, a),
{
    lemma_text_before_irreflexive(a.parser);
}

pub proof fn lemma_spot_transitive(a: DerivedKeyView, b: DerivedKeyView, c: DerivedKeyView)
    requires
        spot_before(a, b),
        spot_before(b, c),
    ensures
        spot_before(a, c),
{
    if a.start_offset == b.start_offset && b.start_offset == c.start_offset && a.end_offset
        == b.end_offset && b.end_offset == c.end_offset {
        if a.source_kind == b.source_kind && b.source_kind == c.source_kind {
            lemma_text_before_transitive(a.parser, b.parser, c.parser);
        } else if a.source_kind != b.source_kind && b.source_kind != c.source_kind {
            lemma_text_before_transitive(a.source_kind, b.source_kind, c.source_kind);
            lemma_text_before_irreflexive(a.source_kind);
        }
    }
}

pub proof fn lemma_spot_total(a: DerivedKeyView, b: DerivedKeyView)
    ensures
        same_spot(a, b) || spot_before(a, b) || spot_before(b, a),
{
    lemma_text_before_total(a.source_kind, b.source_kind);
    lemma_text_before_total(a.parser, b.parser);
}

impl DerivedKey {
    /// Whether this place stands before another one in the content of the same Node.
    pub fn spot_is_before(&self, other: &DerivedKey) -> (r: bool)
        ensures
            r == spot_before(self@, other@),
    {
        if self.start_offset != other.start_offset {
            self.start_offset < other.start_offset
        } else if self.end_offset != other.end_offset {
            self.end_offset < other.end_offset
        } else if !same_text(self.source_kind.as_str(), other.source_kind.as_str()) {
            str_before(self.source_kind.as_str(), other.source_kind.as_str())
        } else {
            str_before(self.parser.as_str(), other.parser.as_str())
        }
    }
}

impl Clone for DerivedKey {
    fn clone(&self) -> (r: DerivedKey)
        ensures
            r@ == self@,
    {
        DerivedKey {
            source: self.source,
            relationship_key: self.relationship_key.clone(),
            start_offset: self.start_offset,
            end_offset: self.end_offset,
            source_kind: self.source_kind.clone(),
            parser: self.parser.clone(),
        }
    }
}

/// Derived Relationships stand by source, then key, then place.
impl TableKey for DerivedKey {
    open spec fn before(a: DerivedKeyView, b: DerivedKeyView) -> bool {
        if a.source != b.source {
            NodeId::before(a.source, b.source)
        } else if a.relationship_key != b.relationship_key {
            text_before(a.relationship_key, b.relationship_key)
        } else {
            spot_before(a, b)
        }
    }

    proof fn before_irreflexive(a: DerivedKeyView) {
        lemma_spot_irreflexive(a);
    }

    proof fn before_transitive(a: DerivedKeyView, b: DerivedKeyView, c: DerivedKeyView) {
        if a.source == b.source && b.source == c.source {
            if a.relationship_key == b.relationship_key && b.relationship_key
                == c.relationship_key {
                lemma_spot_transitive(a, b, c);
            } else if a.relationship_key != b.relationship_key && b.relationship_key
                != c.relationship_key {
                lemma_text_before_transitive(
                    a.relationship_key,
                    b.relationship_key,
                    c.relationship_key,
                );
                lemma_text_before_irreflexive(a.relationship_key);
            }
        } else if a.source != b.source && b.source != c.source {
            NodeId::before_transitive(a.source, b.source, c.source);
            NodeId::before_irreflexive(a.source);
        }
    }

    proof fn before_total(a: DerivedKeyView, b: DerivedKeyView) {
        NodeId::before_total(a.source, b.source);
        lemma_text_before_total(a.relationship_key, b.relationship_key);
        lemma_spot_total(a, b);
    }

    fn is_before(&self, other: &DerivedKey) -> (r: bool) {
        if !self.source.same(&other.source) {
            self.source.is_before(&other.source)
        } else if !same_text(self.relationship_key.as_str(), other.relationship_key.as_str()) {
            str_before(self.relationship_key.as_str(), other.relationship_key.as_str())
        } else {
            self.spot_is_before(other)
        }
    }

    fn copy_key(&self) -> (r: DerivedKey) {
        self.clone()
    }
}

/// What a Relationship found in content leads to.
#[derive(Debug, PartialEq, Eq)]
pub struct DerivedRow {
    pub target: Option<NodeId>,
    pub target_text: String,
    pub source_locator: Option<String>,
}

/// What a Relationship found in content leads to, the texts taken as sequences of characters.
pub struct DerivedRowView {
    pub target: Option<NodeId>,
    pub target_text: Seq<char>,
    pub source_locator: Option<Seq<char>>,
}

impl View for DerivedRow {
    type V = DerivedRowView;

    open spec fn view(&self) -> DerivedRowView {
        DerivedRowView {
            target: self.target,
            target_text: self.target_text@,
            source_locator: optional_text(self.source_locator),
        }
    }
}

impl Clone for DerivedRow {
    fn clone(&self) -> (r: DerivedRow)
        ensures
            r@ == self@,
    {
        DerivedRow {
            target: self.target,
            target_text: self.target_text.clone(),
            source_locator: clone_optional_text(&self.source_locator),
        }
    }
}

impl TableRow for DerivedRow {
    open spec fn sound(&self) -> bool {
        true
    }

    fn copy_row(&self) -> (r: DerivedRow) {
        self.clone()
    }
}

/// The whole content of an Index.
#[verifier::ext_equal]
pub struct IndexModel {
    pub applied_revision: u64,
    pub nodes: Map<NodeId, IndexedNodeView>,
    pub relationships: Map<RelationshipView, u64>,
    pub property_definitions: Map<Seq<char>, PropertyDefinitionRowView>,
    pub relationship_definitions: Map<Seq<char>, RelationshipDefinitionRowView>,
    pub documents: Map<Seq<char>, DocumentView>,
    pub derived: Map<DerivedKeyView, DerivedRowView>,
}

impl IndexModel {
    /// Whether the Index shows exactly the facts of a Record Store with this content.
    pub open spec fn shows(self, m: RecordModel) -> bool {
        &&& self.applied_revision == m.revision
        &&& self.nodes == projected_rows::<NodeId, NodeRow, IndexedNodeRow>(m.nodes)
        &&& self.relationships == projected_rows::<
            RelationshipView,
            RelationshipRow,
            IndexedRelationshipRow,
        >(m.relationships)
        &&& self.property_definitions == m.property_definitions
        &&& self.relationship_definitions == m.relationship_definitions
    }

    /// Whether a Node is there and active.
    pub open spec fn active(self, id: NodeId) -> bool {
        self.nodes.dom().contains(id) && self.nodes[id].lifecycle_state
            == LifecycleState::Active
    }

    /// Whether all content belongs to Nodes that are there.
    pub open spec fn content_ok(self) -> bool {
        &&& forall|k: Seq<char>| #[trigger]
            self.documents.dom().contains(k) ==> self.nodes.dom().contains(
                self.documents[k].node_id,
            ) && self.documents[k].document_key == k
        &&& forall|k: DerivedKeyView| #[trigger]
            self.derived.dom().contains(k) ==> self.nodes.dom().contains(k.source) && match self.derived[k].target {
                Some(target) => self.nodes.dom().contains(target),
                None => true,
            }
    }
}

/// Where a failure can be made to happen.
#[derive(Debug, Clone, Copy, PartialEq, Eq, Structural)]
pub enum FailurePoint {
    BeforeApply,
    BeforeCheckpoint,
    DuringRebuild,
    BeforePromotion,
}

/// The derived store.
pub struct IndexStore {
    pub(crate) applied_revision: u64,
    pub(crate) nodes: Table<NodeId, IndexedNodeRow>,
    pub(crate) relationships: Table<Relationship, IndexedRelationshipRow>,
    pub(crate) property_definitions: Table<String, PropertyDefinitionRow>,
    pub(crate) relationship_definitions: Table<String, RelationshipDefinitionRow>,
    pub(crate) documents: Table<String, SearchDocumentInput>,
    pub(crate) derived: Table<DerivedKey, DerivedRow>,
    pub(crate) failure_point: Option<FailurePoint>,
}

impl View for IndexStore {
    type V = IndexModel;

    open(crate) spec fn view(&self) -> IndexModel {
        IndexModel {
            applied_revision: self.applied_revision,
            nodes: self.nodes@,
            relationships: self.relationships@,
            property_definitions: self.property_definitions@,
            relationship_definitions: self.relationship_definitions@,
            documents: self.documents@,
            derived: self.derived@,
        }
    }
}

/// An Index that shows nothing.
pub open spec fn empty_index() -> IndexModel {
    IndexModel {
        applied_revision: 0,
        nodes: Map::empty(),
        relationships: Map::empty(),
        property_definitions: Map::empty(),
        relationship_definitions: Map::empty(),
        documents: Map::empty(),
        derived: Map::empty(),
    }
}

/// How messages name a point.
pub open spec fn point_name(point: FailurePoint) -> Seq<char> {
    match point {
        FailurePoint::BeforeApply => "BeforeApply"@,
        FailurePoint::BeforeCheckpoint => "BeforeCheckpoint"@,
        FailurePoint::DuringRebuild => "DuringRebuild"@,
        FailurePoint::BeforePromotion => "BeforePromotion"@,
    }
}

/// The failure that was made to happen at a point.
pub open spec fn injected(point: FailurePoint) -> ErrorView {
    ErrorView::IndexUnavailable("injected failure at "@ + point_name(point))
}

impl IndexStore {
    /// The invariant: every table is in order, and the revision is one that a store can hold.
    pub open(crate) spec fn wf(&self) -> bool {
        &&& self.nodes.wf()
        &&& self.relationships.wf()
        &&& self.property_definitions.wf()
        &&& self.relationship_definitions.wf()
        &&& self.documents.wf()
        &&& self.derived.wf()
        &&& self.applied_revision <= i64::MAX
    }

    /// Where the next failure is made to happen, if anywhere.
    pub open(crate) spec fn failure(&self) -> Option<FailurePoint> {
        self.failure_point
    }

    /// An Index that shows nothing.
    pub fn new() -> (r: IndexStore)
        ensures
            r.wf(),
            r@ == empty_index(),
            r.failure() is None,
    {
        let r = IndexStore {
            applied_revision: 0,
            nodes: Table::new(),
            relationships: Table::new(),
            property_definitions: Table::new(),
            relationship_definitions: Table::new(),
            documents: Table::new(),
            derived: Table::new(),
            failure_point: None,
        };
        proof {
            assert(r@ =~= empty_index());
        }
        r
    }

    /// The Record revision that the Index shows.
    pub fn applied_revision(&self) -> (r: u64)
        ensures
            r == self@.applied_revision,
    {
        self.applied_revision
    }

    /// Makes the next failure happen at a point.
    pub fn inject_failure(&mut self, point: FailurePoint)
        requires
            old(self).wf(),
        ensures
            final(self).wf(),
            final(self)@ == old(self)@,
            final(self).failure() == Some(point),
    {
        self.failure_point = Some(point);
    }

    /// Whether the failure is to happen here; it happens once.
    pub(crate) fn take_failure(&mut self, point: FailurePoint) -> (r: bool)
        requires
            old(self).wf(),
        ensures
            final(self).wf(),
            final(self)@ == old(self)@,
            r == (old(self).failure() == Some(point)),
            final(self).failure() == if r {
                None
            } else {
                old(self).failure()
            },
    {
        let here = match self.failure_point {
            Some(p) => p == point,
            None => false,
        };
        if here {
            self.failure_point = None;
        }
        here
    }

    /// Fails here if the failure is to happen here.
    pub(crate) fn fail_if(&mut self, point: FailurePoint) -> (r: Result<(), CoreError>)
        requires
            old(self).wf(),
        ensures
            final(self).wf(),
            final(self)@ == old(self)@,
            match r {
                Ok(_) => old(self).failure() != Some(point) && final(self).failure() == old(
                    self,
                ).failure(),
                Err(e) => old(self).failure() == Some(point) && final(self).failure() is None && e@
                    == injected(point),
            },
    {
        if self.take_failure(point) {
            let name = match point {
                FailurePoint::BeforeApply => "BeforeApply",
                FailurePoint::BeforeCheckpoint => "BeforeCheckpoint",
                FailurePoint::DuringRebuild => "DuringRebuild",
                FailurePoint::BeforePromotion => "BeforePromotion",
            };
            Err(CoreError::IndexUnavailable(join2("injected failure at ", name)))
        } else {
            Ok(())
        }
    }
}

} // verus!
