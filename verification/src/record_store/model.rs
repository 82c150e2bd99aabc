//! What the Record Store holds: its rows, its journal, and the model of the whole store.
use vstd::prelude::*;
use crate::api::{
    clone_optional_text, optional_text, PropertyDefinition, PropertyDefinitionView, Relationship,
    RelationshipDefinition, RelationshipDefinitionView, RelationshipView,
};
use crate::id::NodeId;
use crate::node::LifecycleState;
use crate::table::{Table, TableKey, TableRow};
use crate::text::{
    lemma_text_before_irreflexive, lemma_text_before_total, lemma_text_before_transitive,
    str_before, text_before,
};
use crate::value::{PropertyValue, ValueView};

verus! {

/// The row of a table that only says which keys there are.
#[derive(Debug, Clone, Copy, PartialEq, Eq, Structural)]
pub struct Present;

impl View for Present {
    type V = ();

    open spec fn view(&self) -> () {
        ()
    }
}

impl TableRow for Present {
    open spec fn sound(&self) -> bool {
        true
    }

    fn copy_row(&self) -> (r: Present) {
        Present
    }
}

/// A Property of a Node.
#[derive(Debug)]
pub struct PropertyRow {
    pub value: PropertyValue,
    pub modified_revision: u64,
}

/// A Property of a Node, its value taken by its view.
pub struct PropertyRowView {
    pub value: ValueView,
    pub modified_revision: u64,
}

impl View for PropertyRow {
    type V = PropertyRowView;

    open spec fn view(&self) -> PropertyRowView {
        PropertyRowView { value: self.value@, modified_revision: self.modified_revision }
    }
}

impl TableRow for PropertyRow {
    open spec fn sound(&self) -> bool {
        true
    }

    fn copy_row(&self) -> (r: PropertyRow) {
        PropertyRow { value: self.value.clone(), modified_revision: self.modified_revision }
    }
}

/// A Node with its Properties.
pub struct NodeRow {
    pub lifecycle_state: LifecycleState,
    pub created_revision: u64,
    pub modified_revision: u64,
    pub properties: Table<String, PropertyRow>,
}

/// A Node with its Properties, these taken as a map.
#[verifier::ext_equal]
pub struct NodeRowView {
    pub lifecycle_state: LifecycleState,
    pub created_revision: u64,
    pub modified_revision: u64,
    pub properties: Map<Seq<char>, PropertyRowView>,
}

impl View for NodeRow {
    type V = NodeRowView;

    open spec fn view(&self) -> NodeRowView {
        NodeRowView {
            lifecycle_state: self.lifecycle_state,
            created_revision: self.created_revision,
            modified_revision: self.modified_revision,
            properties: self.properties@,
        }
    }
}

impl TableRow for NodeRow {
    open spec fn sound(&self) -> bool {
        self.properties.wf()
    }

    fn copy_row(&self) -> (r: NodeRow) {
        NodeRow {
            lifecycle_state: self.lifecycle_state,
            created_revision: self.created_revision,
            modified_revision: self.modified_revision,
            properties: self.properties.copy(),
        }
    }
}

/// When a Relationship came and when it was changed.
#[derive(Debug, Clone, Copy, PartialEq, Eq, Structural)]
pub struct RelationshipRow {
    pub created_revision: u64,
    pub modified_revision: u64,
}

impl View for RelationshipRow {
    type V = RelationshipRow;

    open spec fn view(&self) -> RelationshipRow {
        *self
    }
}

impl TableRow for RelationshipRow {
    open spec fn sound(&self) -> bool {
        true
    }

    fn copy_row(&self) -> (r: RelationshipRow) {
        *self
    }
}

/// Relationships stand by source, then key, then target.
pub open spec fn relationship_before(a: RelationshipView, b: RelationshipView) -> bool {
    if a.source != b.source {
        NodeId::before(a.source, b.source)
    } else if a.key != b.key {
        text_before(a.key, b.key)
    } else {
        NodeId::before(a.target, b.target)
    }
}

impl TableKey for Relationship {
    open spec fn before(a: RelationshipView, b: RelationshipView) -> bool {
        relationship_before(a, b)
    }

    proof fn before_irreflexive(a: RelationshipView) {
        NodeId::before_irreflexive(a.target);
    }

    proof fn before_transitive(a: RelationshipView, b: RelationshipView, c: RelationshipView) {
        if a.source == b.source && b.source == c.source {
            if a.key == b.key && b.key == c.key {
                NodeId::before_transitive(a.target, b.target, c.target);
            } else if a.key != b.key && b.key != c.key {
                lemma_text_before_transitive(a.key, b.key, c.key);
                lemma_text_before_irreflexive(a.key);
            }
        } else if a.source != b.source && b.source != c.source {
            NodeId::before_transitive(a.source, b.source, c.source);
            NodeId::before_irreflexive(a.source);
        }
    }

    proof fn before_total(a: RelationshipView, b: RelationshipView) {
        NodeId::before_total(a.source, b.source);
        lemma_text_before_total(a.key, b.key);
        NodeId::before_total(a.target, b.target);
    }

    fn is_before(&self, other: &Relationship) -> (r: bool) {
        proof {
            NodeId::before_irreflexive(self.source);
            NodeId::before_irreflexive(other.source);
            NodeId::before_total(self.source, other.source);
            lemma_text_before_irreflexive(self.key@);
            lemma_text_before_total(self.key@, other.key@);
        }
        if !self.source.same(&other.source) {
            self.source.is_before(&other.source)
        } else if str_before(self.key.as_str(), other.key.as_str()) {
            true
        } else if str_before(other.key.as_str(), self.key.as_str()) {
            proof {
                if text_before(self.key@, other.key@) {
                    lemma_text_before_transitive(self.key@, other.key@, self.key@);
                }
            }
            false
        } else {
            self.target.is_before(&other.target)
        }
    }

    fn copy_key(&self) -> (r: Relationship) {
        self.clone()
    }
}

/// A Property definition and when it was changed.
#[derive(Debug)]
pub struct PropertyDefinitionRow {
    pub definition: PropertyDefinition,
    pub modified_revision: u64,
}

pub struct PropertyDefinitionRowView {
    pub definition: PropertyDefinitionView,
    pub modified_revision: u64,
}

impl View for PropertyDefinitionRow {
    type V = PropertyDefinitionRowView;

    open spec fn view(&self) -> PropertyDefinitionRowView {
        PropertyDefinitionRowView {
            definition: self.definition@,
            modified_revision: self.modified_revision,
        }
    }
}

impl TableRow for PropertyDefinitionRow {
    open spec fn sound(&self) -> bool {
        true
    }

    fn copy_row(&self) -> (r: PropertyDefinitionRow) {
        PropertyDefinitionRow {
            definition: self.definition.clone(),
            modified_revision: self.modified_revision,
        }
    }
}

/// A Relationship definition and when it was changed.
#[derive(Debug)]
pub struct RelationshipDefinitionRow {
    pub definition: RelationshipDefinition,
    pub modified_revision: u64,
}

pub struct RelationshipDefinitionRowView {
    pub definition: RelationshipDefinitionView,
    pub modified_revision: u64,
}

impl View for RelationshipDefinitionRow {
    type V = RelationshipDefinitionRowView;

    open spec fn view(&self) -> RelationshipDefinitionRowView {
        RelationshipDefinitionRowView {
            definition: self.definition@,
            modified_revision: self.modified_revision,
        }
    }
}

impl TableRow for RelationshipDefinitionRow {
    open spec fn sound(&self) -> bool {
        true
    }

    fn copy_row(&self) -> (r: RelationshipDefinitionRow) {
        RelationshipDefinitionRow {
            definition: self.definition.clone(),
            modified_revision: self.modified_revision,
        }
    }
}

/// The kinds of changes that the journal records.
#[derive(Debug, Clone, Copy, PartialEq, Eq, Structural)]
pub enum ChangeKind {
    NodeCreated,
    NodeTombstoned,
    NodeRestored,
    NodePurged,
    PropertySet,
    PropertyRemoved,
    RelationshipAdded,
    RelationshipRemoved,
    PropertyDefinitionRegistered,
    PropertyDefinitionUpdated,
    PropertyDefinitionDeprecated,
    PropertyDefinitionRemoved,
    RelationshipDefinitionRegistered,
    RelationshipDefinitionUpdated,
    RelationshipDefinitionDeprecated,
    RelationshipDefinitionRemoved,
    /// A kind that this version does not know.
    Unknown,
}

/// One entry of the journal: what was changed, at which revision, at which place of its batch.
#[derive(Debug)]
pub struct ChangeRow {
    pub revision: u64,
    pub ordinal: u64,
    pub kind: ChangeKind,
    pub node_id: Option<NodeId>,
    /// The key of the Property, the Relationship or the definition.
    pub definition_key: Option<String>,
    /// The other end of the Relationship.
    pub target: Option<NodeId>,
    /// The replacement of the deprecated definition.
    pub replacement_key: Option<String>,
}

pub struct ChangeView {
    pub revision: u64,
    pub ordinal: u64,
    pub kind: ChangeKind,
    pub node_id: Option<NodeId>,
    pub definition_key: Option<Seq<char>>,
    pub target: Option<NodeId>,
    pub replacement_key: Option<Seq<char>>,
}

impl View for ChangeRow {
    type V = ChangeView;

    open spec fn view(&self) -> ChangeView {
        ChangeView {
            revision: self.revision,
            ordinal: self.ordinal,
            kind: self.kind,
            node_id: self.node_id,
            definition_key: optional_text(self.definition_key),
            target: self.target,
            replacement_key: optional_text(self.replacement_key),
        }
    }
}

impl Clone for ChangeRow {
    fn clone(&self) -> (r: ChangeRow)
        ensures
            r@ == self@,
    {
        ChangeRow {
            revision: self.revision,
            ordinal: self.ordinal,
            kind: self.kind,
            node_id: self.node_id,
            definition_key: clone_optional_text(&self.definition_key),
            target: self.target,
            replacement_key: clone_optional_text(&self.replacement_key),
        }
    }
}

/// The views of a run of journal entries.
pub open spec fn changes_view(changes: Seq<ChangeRow>) -> Seq<ChangeView> {
    Seq::new(changes.len(), |i: int| changes[i]@)
}

/// The same journal entries.
pub fn clone_changes(changes: &Vec<ChangeRow>) -> (r: Vec<ChangeRow>)
    ensures
        changes_view(r@) == changes_view(changes@),
{
    let mut r: Vec<ChangeRow> = Vec::new();
    let mut i: usize = 0;
    while i < changes.len()
        invariant
            i <= changes@.len(),
            r@.len() == i,
            forall|j: int| 0 <= j < i ==> (#[trigger] r@[j])@ == changes@[j]@,
        decreases changes@.len() - i,
    {
        r.push(changes[i].clone());
        i = i + 1;
    }
    proof {
        assert(changes_view(r@) =~= changes_view(changes@));
    }
    r
}

/// The whole content of a Record Store.
#[verifier::ext_equal]
pub struct RecordModel {
    pub revision: u64,
    pub issued: Set<NodeId>,
    pub nodes: Map<NodeId, NodeRowView>,
    pub relationships: Map<RelationshipView, RelationshipRow>,
    pub property_definitions: Map<Seq<char>, PropertyDefinitionRowView>,
    pub relationship_definitions: Map<Seq<char>, RelationshipDefinitionRowView>,
    pub journal: Seq<ChangeView>,
}

/// The canonical store: every committed fact, and the journal of the latest changes.
pub struct RecordStore {
    pub(crate) revision: u64,
    pub(crate) issued: Table<NodeId, Present>,
    pub(crate) nodes: Table<NodeId, NodeRow>,
    pub(crate) relationships: Table<Relationship, RelationshipRow>,
    pub(crate) property_definitions: Table<String, PropertyDefinitionRow>,
    pub(crate) relationship_definitions: Table<String, RelationshipDefinitionRow>,
    pub(crate) journal: Vec<ChangeRow>,
}

impl View for RecordStore {
    type V = RecordModel;

    open(crate) spec fn view(&self) -> RecordModel {
        RecordModel {
            revision: self.revision,
            issued: self.issued@.dom(),
            nodes: self.nodes@,
            relationships: self.relationships@,
            property_definitions: self.property_definitions@,
            relationship_definitions: self.relationship_definitions@,
            journal: changes_view(self.journal@),
        }
    }
}

impl RecordStore {
    /// The invariant: every table is in order, the revision is one that a store can hold, every
    /// definition stands under its own key, and every Node has an issued ID.
    pub open(crate) spec fn wf(&self) -> bool {
        self.tables_ok() && all_issued(self.nodes@, self.issued@.dom())
    }

    /// The invariant, but for the issued IDs.
    pub open(crate) spec fn tables_ok(&self) -> bool {
        &&& self.issued.wf()
        &&& self.nodes.wf()
        &&& self.relationships.wf()
        &&& self.property_definitions.wf()
        &&& self.relationship_definitions.wf()
        &&& self.revision <= i64::MAX
        &&& keyed(self@.property_definitions, self@.relationship_definitions)
    }

    /// A store without facts, at revision 0.
    pub fn new() -> (r: RecordStore)
        ensures
            r.wf(),
            r@ == empty_model(),
    {
        let r = RecordStore {
            revision: 0,
            issued: Table::new(),
            nodes: Table::new(),
            relationships: Table::new(),
            property_definitions: Table::new(),
            relationship_definitions: Table::new(),
            journal: Vec::new(),
        };
        proof {
            assert(r@ =~= empty_model());
        }
        r
    }

    /// A store with the same content.
    pub(crate) fn copy(&self) -> (r: RecordStore)
        requires
            self.wf(),
        ensures
            r.wf(),
            r@ == self@,
    {
        RecordStore {
            revision: self.revision,
            issued: self.issued.copy(),
            nodes: self.nodes.copy(),
            relationships: self.relationships.copy(),
            property_definitions: self.property_definitions.copy(),
            relationship_definitions: self.relationship_definitions.copy(),
            journal: clone_changes(&self.journal),
        }
    }
}

/// Whether every definition stands under its own key.
pub open spec fn keyed(
    property_definitions: Map<Seq<char>, PropertyDefinitionRowView>,
    relationship_definitions: Map<Seq<char>, RelationshipDefinitionRowView>,
) -> bool {
    &&& forall|k: Seq<char>| #[trigger]
        property_definitions.dom().contains(k) ==> property_definitions[k].definition.key == k
    &&& forall|k: Seq<char>| #[trigger]
        relationship_definitions.dom().contains(k) ==> relationship_definitions[k].definition.key
            == k
}

/// Whether all these Nodes are ones whose IDs were issued.
pub open spec fn all_issued(nodes: Map<NodeId, NodeRowView>, issued: Set<NodeId>) -> bool {
    forall|id: NodeId| #[trigger] nodes.dom().contains(id) ==> issued.contains(id)
}

/// Whether every Node of a store is one whose ID was issued.
pub open spec fn nodes_issued(m: RecordModel) -> bool {
    all_issued(m.nodes, m.issued)
}

/// A store without facts.
pub open spec fn empty_model() -> RecordModel {
    RecordModel {
        revision: 0,
        issued: Set::empty(),
        nodes: Map::empty(),
        relationships: Map::empty(),
        property_definitions: Map::empty(),
        relationship_definitions: Map::empty(),
        journal: Seq::empty(),
    }
}

} // verus!
