//! Frames: the rows that a recovery segment brings, one after the other, and what applying them to a
//! recovery candidate makes of it.
use vstd::prelude::*;
use crate::api::{Relationship, RelationshipView};
use crate::error::{CoreError, ErrorView};
use crate::id::NodeId;
use crate::node::LifecycleState;
use crate::record_store::model::{
    changes_view, keyed, ChangeView, NodeRow, NodeRowView, Present,
    PropertyDefinitionRow, PropertyDefinitionRowView, PropertyRow, PropertyRowView, RecordModel,
    RecordStore, RelationshipDefinitionRow, RelationshipDefinitionRowView, RelationshipRow,
};
use crate::record_store::projection::{PatchView, ProjectionPatch};
use crate::record_store::recovery::{
    brings_refused_value, dated, definition_row_ok, issued_by, kept_row, kept_slots, key_taken,
    node_row_ok, patched, property_rows_ok, references_ok, refused_value, relationship_row_ok,
    rows_ok, segment_out_of_place, takes,
};
use crate::table::{lists, overlay, Projects, Slot, Table, TableKey, TableRow};
use crate::text::{chars_of, decimal, join5};
use crate::value::{kept_value, value_fault, PropertyValue, ValueView};

verus! {

/// A Property that a frame brings.
#[derive(Debug)]
pub struct FrameProperty {
    pub key: String,
    pub value: PropertyValue,
    pub modified_revision: u64,
}

pub struct FramePropertyView {
    pub key: Seq<char>,
    pub value: ValueView,
    pub modified_revision: u64,
}

impl View for FrameProperty {
    type V = FramePropertyView;

    open spec fn view(&self) -> FramePropertyView {
        FramePropertyView {
            key: self.key@,
            value: self.value@,
            modified_revision: self.modified_revision,
        }
    }
}

/// A Node that a frame brings, with its own ID.
#[derive(Debug)]
pub struct FrameNode {
    pub id: NodeId,
    pub lifecycle_state: LifecycleState,
    pub created_revision: u64,
    pub modified_revision: u64,
    pub properties: Vec<FrameProperty>,
}

pub struct FrameNodeView {
    pub id: NodeId,
    pub lifecycle_state: LifecycleState,
    pub created_revision: u64,
    pub modified_revision: u64,
    pub properties: Seq<FramePropertyView>,
}

impl View for FrameNode {
    type V = FrameNodeView;

    open spec fn view(&self) -> FrameNodeView {
        FrameNodeView {
            id: self.id,
            lifecycle_state: self.lifecycle_state,
            created_revision: self.created_revision,
            modified_revision: self.modified_revision,
            properties: Seq::new(self.properties@.len(), |i: int| self.properties@[i]@),
        }
    }
}

/// A Relationship that a frame brings, with its own ends and key.
#[derive(Debug)]
pub struct FrameRelationship {
    pub relationship: Relationship,
    pub row: RelationshipRow,
}

pub struct FrameRelationshipView {
    pub relationship: RelationshipView,
    pub row: RelationshipRow,
}

impl View for FrameRelationship {
    type V = FrameRelationshipView;

    open spec fn view(&self) -> FrameRelationshipView {
        FrameRelationshipView { relationship: self.relationship@, row: self.row }
    }
}

/// What a frame says of a key: that its row is gone, or which row comes.
#[derive(Debug)]
pub struct Entry<K, F> {
    pub key: K,
    pub row: Option<F>,
}

pub struct EntryView<K, F> {
    pub key: K,
    pub row: Option<F>,
}

impl<K: View, F: View> View for Entry<K, F> {
    type V = EntryView<K::V, F::V>;

    open spec fn view(&self) -> EntryView<K::V, F::V> {
        EntryView {
            key: self.key@,
            row: match self.row {
                Some(row) => Some(row@),
                None => None,
            },
        }
    }
}

/// The views of some entries.
pub open spec fn entries_view<K: View, F: View>(entries: Seq<Entry<K, F>>) -> Seq<
    EntryView<K::V, F::V>,
> {
    Seq::new(entries.len(), |i: int| entries[i]@)
}

/// The rows that lead a recovery candidate from one revision to another, in the order in which they
/// are applied.
#[derive(Debug)]
pub struct PatchFrame {
    pub from_revision: u64,
    pub target_revision: u64,
    pub change_count: usize,
    pub issued_node_ids: Vec<NodeId>,
    pub nodes: Vec<Entry<NodeId, FrameNode>>,
    pub relationships: Vec<Entry<Relationship, FrameRelationship>>,
    pub property_definitions: Vec<Entry<String, PropertyDefinitionRow>>,
    pub relationship_definitions: Vec<Entry<String, RelationshipDefinitionRow>>,
}

pub struct FrameView {
    pub from_revision: u64,
    pub target_revision: u64,
    pub change_count: nat,
    pub issued: Seq<NodeId>,
    pub nodes: Seq<EntryView<NodeId, FrameNodeView>>,
    pub relationships: Seq<EntryView<RelationshipView, FrameRelationshipView>>,
    pub property_definitions: Seq<EntryView<Seq<char>, PropertyDefinitionRowView>>,
    pub relationship_definitions: Seq<EntryView<Seq<char>, RelationshipDefinitionRowView>>,
}

impl View for PatchFrame {
    type V = FrameView;

    open spec fn view(&self) -> FrameView {
        FrameView {
            from_revision: self.from_revision,
            target_revision: self.target_revision,
            change_count: self.change_count as nat,
            issued: self.issued_node_ids@,
            nodes: entries_view(self.nodes@),
            relationships: entries_view(self.relationships@),
            property_definitions: entries_view(self.property_definitions@),
            relationship_definitions: entries_view(self.relationship_definitions@),
        }
    }
}

/// A row of a frame for a table of rows `R` under keys `K`.
pub trait FrameRow<K: TableKey, R: TableRow>: View + Sized {
    /// The key under which the row comes to stand.
    spec fn own(v: Self::V) -> K::V;

    /// The row as the table keeps it.
    spec fn stored(v: Self::V) -> R::V;

    /// Whether the table takes the row.
    spec fn fits(v: Self::V) -> bool;

    /// The row of a frame that is written of a row and its key.
    spec fn written(k: K::V, row: R::V) -> Self::V;

    fn own_key(&self) -> (r: K)
        ensures
            r@ == Self::own(self@),
    ;

    fn stored_row(&self) -> (r: R)
        ensures
            r.sound(),
            r@ == Self::stored(self@),
    ;

    fn is_fit(&self) -> (r: bool)
        ensures
            r == Self::fits(self@),
    ;

    fn write(key: &K, row: &R) -> (r: Self)
        requires
            row.sound(),
        ensures
            r@ == Self::written(key@, row@),
    ;
}

fn is_dated(created: u64, modified: u64) -> (r: bool)
    ensures
        r == dated(created, modified),
{
    0 < created && created <= modified && modified <= i64::MAX as u64
}

fn is_key_taken(key: &str) -> (r: bool)
    ensures
        r == key_taken(key@),
{
    let chars = chars_of(key);
    chars.len() > 0 && chars[0] != '\0'
}

fn is_definition_row_ok(key: &str, version: u64, modified: u64) -> (r: bool)
    ensures
        r == definition_row_ok(key@, version, modified),
{
    is_key_taken(key) && 0 < version && version <= i64::MAX as u64 && 0 < modified && modified
        <= i64::MAX as u64
}

impl FrameRow<Relationship, RelationshipRow> for FrameRelationship {
    open spec fn own(v: FrameRelationshipView) -> RelationshipView {
        v.relationship
    }

    open spec fn stored(v: FrameRelationshipView) -> RelationshipRow {
        v.row
    }

    open spec fn fits(v: FrameRelationshipView) -> bool {
        relationship_row_ok(v.relationship, v.row)
    }

    open spec fn written(k: RelationshipView, row: RelationshipRow) -> FrameRelationshipView {
        FrameRelationshipView { relationship: k, row }
    }

    fn own_key(&self) -> (r: Relationship) {
        self.relationship.clone()
    }

    fn stored_row(&self) -> (r: RelationshipRow) {
        self.row
    }

    fn is_fit(&self) -> (r: bool) {
        is_key_taken(self.relationship.key.as_str()) && is_dated(
            self.row.created_revision,
            self.row.modified_revision,
        )
    }

    fn write(key: &Relationship, row: &RelationshipRow) -> (r: FrameRelationship) {
        FrameRelationship { relationship: key.clone(), row: *row }
    }
}

impl FrameRow<String, PropertyDefinitionRow> for PropertyDefinitionRow {
    open spec fn own(v: PropertyDefinitionRowView) -> Seq<char> {
        v.definition.key
    }

    open spec fn stored(v: PropertyDefinitionRowView) -> PropertyDefinitionRowView {
        v
    }

    open spec fn fits(v: PropertyDefinitionRowView) -> bool {
        definition_row_ok(v.definition.key, v.definition.version, v.modified_revision)
    }

    open spec fn written(k: Seq<char>, row: PropertyDefinitionRowView) -> PropertyDefinitionRowView {
        row
    }

    fn own_key(&self) -> (r: String) {
        self.definition.key.clone()
    }

    fn stored_row(&self) -> (r: PropertyDefinitionRow) {
        self.copy_row()
    }

    fn is_fit(&self) -> (r: bool) {
        is_definition_row_ok(
            self.definition.key.as_str(),
            self.definition.version,
            self.modified_revision,
        )
    }

    fn write(_key: &String, row: &PropertyDefinitionRow) -> (r: PropertyDefinitionRow) {
        row.copy_row()
    }
}

impl FrameRow<String, RelationshipDefinitionRow> for RelationshipDefinitionRow {
    open spec fn own(v: RelationshipDefinitionRowView) -> Seq<char> {
        v.definition.key
    }

    open spec fn stored(v: RelationshipDefinitionRowView) -> RelationshipDefinitionRowView {
        kept_row(v)
    }

    open spec fn fits(v: RelationshipDefinitionRowView) -> bool {
        definition_row_ok(v.definition.key, v.definition.version, v.modified_revision)
    }

    open spec fn written(k: Seq<char>, row: RelationshipDefinitionRowView) ->
        RelationshipDefinitionRowView {
        row
    }

    fn own_key(&self) -> (r: String) {
        self.definition.key.clone()
    }

    fn stored_row(&self) -> (r: RelationshipDefinitionRow) {
        self.project()
    }

    fn is_fit(&self) -> (r: bool) {
        is_definition_row_ok(
            self.definition.key.as_str(),
            self.definition.version,
            self.modified_revision,
        )
    }

    fn write(_key: &String, row: &RelationshipDefinitionRow) -> (r: RelationshipDefinitionRow) {
        row.copy_row()
    }
}

/// A table after an entry: the row of the entry's key is gone, and the row that comes stands under
/// its own key. Nothing where the table does not take that row, or has another one there.
pub open spec fn entry_applied<K: TableKey, R: TableRow, F: FrameRow<K, R>>(
    rows: Map<K::V, R::V>,
    entry: EntryView<K::V, F::V>,
) -> Option<Map<K::V, R::V>> {
    let left = rows.remove(entry.key);
    match entry.row {
        None => Some(left),
        Some(v) => if F::fits(v) && !left.dom().contains(F::own(v)) {
            Some(left.insert(F::own(v), F::stored(v)))
        } else {
            None
        },
    }
}

/// A table after the first `n` entries, where it takes them all.
pub open spec fn entries_applied<K: TableKey, R: TableRow, F: FrameRow<K, R>>(
    rows: Map<K::V, R::V>,
    entries: Seq<EntryView<K::V, F::V>>,
    n: nat,
) -> Option<Map<K::V, R::V>>
    decreases n,
{
    if n == 0 || n > entries.len() {
        Some(rows)
    } else {
        match entries_applied::<K, R, F>(rows, entries, (n - 1) as nat) {
            None => None,
            Some(before) => entry_applied::<K, R, F>(before, entries[n - 1]),
        }
    }
}

proof fn lemma_entries_stop<K: TableKey, R: TableRow, F: FrameRow<K, R>>(
    rows: Map<K::V, R::V>,
    entries: Seq<EntryView<K::V, F::V>>,
    n: nat,
    all: nat,
)
    requires
        n <= all <= entries.len(),
        entries_applied::<K, R, F>(rows, entries, n) is None,
    ensures
        entries_applied::<K, R, F>(rows, entries, all) is None,
    decreases all,
{
    if n < all {
        lemma_entries_stop::<K, R, F>(rows, entries, n, (all - 1) as nat);
    }
}

/// Applies entries to a table, and says whether it takes them all.
fn apply_entries<K: TableKey, R: TableRow, F: FrameRow<K, R>>(
    rows: &mut Table<K, R>,
    entries: &Vec<Entry<K, F>>,
) -> (r: bool)
    requires
        old(rows).wf(),
    ensures
        final(rows).wf(),
        entries_applied::<K, R, F>(old(rows)@, entries_view(entries@), entries@.len()) == (if r {
            Some(final(rows)@)
        } else {
            None
        }),
{
    let ghost begun = rows@;
    let ghost all = entries_view(entries@);
    let mut i: usize = 0;
    while i < entries.len()
        invariant
            rows.wf(),
            begun == old(rows)@,
            all == entries_view(entries@),
            i <= entries@.len(),
            entries_applied::<K, R, F>(begun, all, i as nat) == Some(rows@),
        decreases entries@.len() - i,
    {
        let entry = &entries[i];
        proof {
            assert(all[i as int] == entry@);
        }
        rows.remove(&entry.key);
        match &entry.row {
            None => {},
            Some(row) => {
                let key = row.own_key();
                if !row.is_fit() || rows.contains(&key) {
                    proof {
                        lemma_entries_stop::<K, R, F>(begun, all, (i + 1) as nat, all.len());
                    }
                    return false;
                }
                rows.insert(key, row.stored_row());
            },
        }
        i = i + 1;
    }
    true
}

/// What is refused by a table.
pub open spec fn constraint_failed() -> ErrorView {
    ErrorView::Database("constraint failed"@)
}

fn constraint_error() -> (r: CoreError)
    ensures
        r@ == constraint_failed(),
{
    CoreError::Database("constraint failed".to_owned())
}

/// The first `n` Properties of a Node as the table keeps them, or why the first of them fails that
/// does: for its value, or for its row.
pub open spec fn properties_applied(properties: Seq<FramePropertyView>, n: nat) -> Result<
    Map<Seq<char>, PropertyRowView>,
    ErrorView,
>
    decreases n,
{
    if n == 0 || n > properties.len() {
        Ok(Map::empty())
    } else {
        match properties_applied(properties, (n - 1) as nat) {
            Err(e) => Err(e),
            Ok(rows) => {
                let p = properties[n - 1];
                match value_fault(p.value) {
                    Some(fault) => Err(fault),
                    None => if key_taken(p.key) && 0 < p.modified_revision <= i64::MAX
                        && !rows.dom().contains(p.key) {
                        Ok(
                            rows.insert(
                                p.key,
                                PropertyRowView {
                                    value: kept_value(p.value),
                                    modified_revision: p.modified_revision,
                                },
                            ),
                        )
                    } else {
                        Err(constraint_failed())
                    },
                }
            },
        }
    }
}

/// The row that a Node of a frame gets, or why it fails.
pub open spec fn node_applied(node: FrameNodeView) -> Result<NodeRowView, ErrorView> {
    if !dated(node.created_revision, node.modified_revision) {
        Err(constraint_failed())
    } else {
        match properties_applied(node.properties, node.properties.len()) {
            Err(e) => Err(e),
            Ok(properties) => Ok(
                NodeRowView {
                    lifecycle_state: node.lifecycle_state,
                    created_revision: node.created_revision,
                    modified_revision: node.modified_revision,
                    properties,
                },
            ),
        }
    }
}

/// The Nodes after the first `n` entries, or why the first of them fails that does. A Node that
/// comes takes the place of the one with its own ID.
pub open spec fn nodes_applied(
    nodes: Map<NodeId, NodeRowView>,
    entries: Seq<EntryView<NodeId, FrameNodeView>>,
    n: nat,
) -> Result<Map<NodeId, NodeRowView>, ErrorView>
    decreases n,
{
    if n == 0 || n > entries.len() {
        Ok(nodes)
    } else {
        match nodes_applied(nodes, entries, (n - 1) as nat) {
            Err(e) => Err(e),
            Ok(before) => match entries[n - 1].row {
                None => Ok(before.remove(entries[n - 1].key)),
                Some(node) => match node_applied(node) {
                    Err(e) => Err(e),
                    Ok(row) => Ok(before.insert(node.id, row)),
                },
            },
        }
    }
}

/// Whether one of the first `n` entries brings a Node of this ID.
pub open spec fn brings_node(
    entries: Seq<EntryView<NodeId, FrameNodeView>>,
    n: nat,
    id: NodeId,
) -> bool {
    exists|i: int|
        0 <= i < n && (#[trigger] entries[i]).row is Some && entries[i].row->0.id == id
}

/// The IDs that a frame says are issued: those it names, and those of the Nodes it brings.
pub open spec fn frame_issued(f: FrameView) -> Set<NodeId> {
    Set::new(|id: NodeId| f.issued.contains(id) || brings_node(f.nodes, f.nodes.len(), id))
}

/// A recovery candidate after a frame, or why the frame fails: it does not begin where the candidate
/// stands or does not lead forward, a Node fails, or a table or a reference between tables does not
/// hold.
pub open spec fn frame_result(m: RecordModel, f: FrameView) -> Result<RecordModel, ErrorView> {
    if m.revision != f.from_revision || f.target_revision <= f.from_revision {
        Err(segment_out_of_place(m, f.from_revision, f.target_revision))
    } else {
        let relationships = entries_applied::<Relationship, RelationshipRow, FrameRelationship>(
            m.relationships,
            f.relationships,
            f.relationships.len(),
        );
        let property_definitions = entries_applied::<
            String,
            PropertyDefinitionRow,
            PropertyDefinitionRow,
        >(m.property_definitions, f.property_definitions, f.property_definitions.len());
        let relationship_definitions = entries_applied::<
            String,
            RelationshipDefinitionRow,
            RelationshipDefinitionRow,
        >(
            m.relationship_definitions,
            f.relationship_definitions,
            f.relationship_definitions.len(),
        );
        match nodes_applied(m.nodes, f.nodes, f.nodes.len()) {
            Err(e) => Err(e),
            Ok(nodes) => if relationships is Some && property_definitions is Some
                && relationship_definitions is Some {
                let n = RecordModel {
                    revision: f.target_revision,
                    issued: m.issued.union(frame_issued(f)),
                    nodes,
                    relationships: relationships->0,
                    property_definitions: property_definitions->0,
                    relationship_definitions: relationship_definitions->0,
                    journal: Seq::empty(),
                };
                if f.target_revision <= i64::MAX && references_ok(n) {
                    Ok(n)
                } else {
                    Err(constraint_failed())
                }
            } else {
                Err(constraint_failed())
            },
        }
    }
}

proof fn lemma_properties_stop(properties: Seq<FramePropertyView>, n: nat, all: nat, e: ErrorView)
    requires
        n <= all <= properties.len(),
        properties_applied(properties, n) == Err::<Map<Seq<char>, PropertyRowView>, ErrorView>(e),
    ensures
        properties_applied(properties, all) == Err::<Map<Seq<char>, PropertyRowView>, ErrorView>(e),
    decreases all,
{
    if n < all {
        lemma_properties_stop(properties, n, (all - 1) as nat, e);
    }
}

proof fn lemma_nodes_stop(
    nodes: Map<NodeId, NodeRowView>,
    entries: Seq<EntryView<NodeId, FrameNodeView>>,
    n: nat,
    all: nat,
    e: ErrorView,
)
    requires
        n <= all <= entries.len(),
        nodes_applied(nodes, entries, n) == Err::<Map<NodeId, NodeRowView>, ErrorView>(e),
    ensures
        nodes_applied(nodes, entries, all) == Err::<Map<NodeId, NodeRowView>, ErrorView>(e),
    decreases all,
{
    if n < all {
        lemma_nodes_stop(nodes, entries, n, (all - 1) as nat, e);
    }
}

/// The row that a Node of a frame gets.
fn node_row(node: &FrameNode) -> (r: Result<NodeRow, CoreError>)
    ensures
        match r {
            Ok(row) => row.sound() && node_applied(node@) == Ok::<NodeRowView, ErrorView>(row@),
            Err(e) => node_applied(node@) == Err::<NodeRowView, ErrorView>(e@),
        },
{
    if !is_dated(node.created_revision, node.modified_revision) {
        return Err(constraint_error());
    }
    let ghost all = node@.properties;
    let mut properties: Table<String, PropertyRow> = Table::new();
    let mut i: usize = 0;
    while i < node.properties.len()
        invariant
            properties.wf(),
            all == node@.properties,
            i <= node.properties@.len(),
            properties_applied(all, i as nat) == Ok::<Map<Seq<char>, PropertyRowView>, ErrorView>(
                properties@,
            ),
            dated(node.created_revision, node.modified_revision),
        decreases node.properties@.len() - i,
    {
        let property = &node.properties[i];
        proof {
            assert(all[i as int] == property@);
        }
        match property.value.validate() {
            Err(e) => {
                proof {
                    lemma_properties_stop(all, (i + 1) as nat, all.len(), e@);
                }
                return Err(e);
            },
            Ok(_) => {},
        }
        let modified: u64 = property.modified_revision;
        if !is_key_taken(property.key.as_str()) || modified == 0 || modified > i64::MAX as u64
            || properties.contains(&property.key) {
            proof {
                lemma_properties_stop(all, (i + 1) as nat, all.len(), constraint_failed());
            }
            return Err(constraint_error());
        }
        properties.insert(
            property.key.clone(),
            PropertyRow { value: property.value.kept(), modified_revision: modified },
        );
        i = i + 1;
    }
    Ok(
        NodeRow {
            lifecycle_state: node.lifecycle_state,
            created_revision: node.created_revision,
            modified_revision: node.modified_revision,
            properties,
        },
    )
}

impl RecordStore {
    /// Issues the IDs that a frame names.
    fn issue_named(&mut self, ids: &Vec<NodeId>)
        requires
            old(self).wf(),
        ensures
            final(self).wf(),
            final(self)@ == (RecordModel {
                issued: old(self)@.issued.union(ids@.to_set()),
                ..old(self)@
            }),
    {
        let ghost before = self.issued@.dom();
        let mut i: usize = 0;
        while i < ids.len()
            invariant
                self.wf(),
                i <= ids@.len(),
                before == old(self).issued@.dom(),
                self@ == (RecordModel { issued: self@.issued, ..old(self)@ }),
                forall|id: NodeId| #[trigger]
                    self.issued@.dom().contains(id) <==> before.contains(id) || ids@.subrange(
                        0,
                        i as int,
                    ).contains(id),
            decreases ids@.len() - i,
        {
            let ghost was = ids@.subrange(0, i as int);
            proof {
                assert(ids@.subrange(0, i + 1) =~= was.push(ids@[i as int]));
                assert forall|id: NodeId| #[trigger]
                    ids@.subrange(0, i + 1).contains(id) <==> was.contains(id) || id
                        == ids@[i as int] by {
                    if was.contains(id) {
                        let j = was.index_of(id);
                        assert(ids@.subrange(0, i + 1)[j] == id);
                    }
                    assert(ids@.subrange(0, i + 1)[i as int] == ids@[i as int]);
                }
            }
            self.issued.insert(ids[i], Present);
            i = i + 1;
        }
        proof {
            assert(ids@.subrange(0, i as int) =~= ids@);
            assert(self@.issued =~= old(self)@.issued.union(ids@.to_set()));
        }
    }

    /// Applies the Nodes of a frame, and issues their IDs.
    fn apply_nodes(&mut self, entries: &Vec<Entry<NodeId, FrameNode>>) -> (r: Result<(), CoreError>)
        requires
            old(self).wf(),
        ensures
            ({
                let all = entries_view(entries@);
                match r {
                    Ok(_) => final(self).wf() && nodes_applied(old(self)@.nodes, all, all.len())
                        == Ok::<Map<NodeId, NodeRowView>, ErrorView>(final(self)@.nodes)
                        && final(self)@ == (RecordModel {
                        issued: old(self)@.issued.union(
                            Set::new(|id: NodeId| brings_node(all, all.len(), id)),
                        ),
                        nodes: final(self)@.nodes,
                        ..old(self)@
                    }),
                    Err(e) => nodes_applied(old(self)@.nodes, all, all.len()) == Err::<
                        Map<NodeId, NodeRowView>,
                        ErrorView,
                    >(e@),
                }
            }),
    {
        let ghost all = entries_view(entries@);
        let ghost begun = self.nodes@;
        let ghost before = self.issued@.dom();
        let mut i: usize = 0;
        while i < entries.len()
            invariant
                self.wf(),
                all == entries_view(entries@),
                begun == old(self)@.nodes,
                before == old(self)@.issued,
                i <= entries@.len(),
                nodes_applied(begun, all, i as nat) == Ok::<Map<NodeId, NodeRowView>, ErrorView>(
                    self.nodes@,
                ),
                self@ == (RecordModel {
                    issued: self@.issued,
                    nodes: self@.nodes,
                    ..old(self)@
                }),
                forall|id: NodeId| #[trigger]
                    self.issued@.dom().contains(id) <==> before.contains(id) || brings_node(
                        all,
                        i as nat,
                        id,
                    ),
            decreases entries@.len() - i,
        {
            let entry = &entries[i];
            proof {
                assert(all[i as int] == entry@);
                assert forall|id: NodeId| #[trigger]
                    brings_node(all, (i + 1) as nat, id) <==> brings_node(all, i as nat, id) || (
                    entry@.row is Some && entry@.row->0.id == id) by {
                    if brings_node(all, i as nat, id) {
                        let j = choose|j: int|
                            0 <= j < i && (#[trigger] all[j]).row is Some && all[j].row->0.id == id;
                        assert(all[j].row is Some);
                    }
                    if entry@.row is Some && entry@.row->0.id == id {
                        assert(all[i as int].row is Some);
                    }
                }
            }
            match &entry.row {
                None => {
                    self.nodes.remove(&entry.key);
                },
                Some(node) => match node_row(node) {
                    Err(e) => {
                        proof {
                            lemma_nodes_stop(begun, all, (i + 1) as nat, all.len(), e@);
                        }
                        return Err(e);
                    },
                    Ok(row) => {
                        self.issued.insert(node.id, Present);
                        self.nodes.insert(node.id, row);
                    },
                },
            }
            i = i + 1;
        }
        proof {
            assert(self@.issued =~= before.union(
                Set::new(|id: NodeId| brings_node(all, all.len(), id)),
            ));
        }
        Ok(())
    }

    /// Applies a frame to a recovery candidate, which stays as it was where the frame fails.
    pub fn apply_recovery_patch(&mut self, patch: &PatchFrame) -> (r: Result<(), CoreError>)
        requires
            old(self).wf(),
        ensures
            final(self).wf(),
            match r {
                Ok(_) => frame_result(old(self)@, patch@) == Ok::<RecordModel, ErrorView>(
                    final(self)@,
                ),
                Err(e) => frame_result(old(self)@, patch@) == Err::<RecordModel, ErrorView>(e@)
                    && *final(self) == *old(self),
            },
    {
        if self.revision != patch.from_revision || patch.target_revision <= patch.from_revision {
            let from = decimal(patch.from_revision as u128);
            let target = decimal(patch.target_revision as u128);
            let current = decimal(self.revision as u128);
            let mut reason = join5(
                "segment ",
                from.as_str(),
                "..",
                target.as_str(),
                " cannot follow candidate revision ",
            );
            reason.append(current.as_str());
            return Err(CoreError::CorruptStore { store: "Record recovery segment", reason });
        }
        let ghost f = patch@;
        let mut work = self.copy();
        work.issue_named(&patch.issued_node_ids);
        match work.apply_nodes(&patch.nodes) {
            Err(e) => return Err(e),
            Ok(_) => {},
        }
        if !apply_entries::<Relationship, RelationshipRow, FrameRelationship>(
            &mut work.relationships,
            &patch.relationships,
        ) {
            return Err(constraint_error());
        }
        if !apply_entries::<String, PropertyDefinitionRow, PropertyDefinitionRow>(
            &mut work.property_definitions,
            &patch.property_definitions,
        ) {
            return Err(constraint_error());
        }
        if !apply_entries::<String, RelationshipDefinitionRow, RelationshipDefinitionRow>(
            &mut work.relationship_definitions,
            &patch.relationship_definitions,
        ) {
            return Err(constraint_error());
        }
        if patch.target_revision > i64::MAX as u64 {
            return Err(constraint_error());
        }
        work.revision = patch.target_revision;
        work.journal = Vec::new();
        proof {
            assert(changes_view(work.journal@) =~= Seq::<ChangeView>::empty());
            assert(work@.issued =~= self@.issued.union(frame_issued(f)));
            lemma_definitions_keyed(self@, f, work@);
        }
        if !work.references_are_ok() {
            return Err(constraint_error());
        }
        *self = work;
        Ok(())
    }
}

/// Whether entries say of every key what became of its row: each key once, in any order, and a row
/// that comes stands under that key.
pub open spec fn entries_tell<K: TableKey, R: TableRow, F: FrameRow<K, R>>(
    entries: Seq<EntryView<K::V, F::V>>,
    changed: Map<K::V, Option<R::V>>,
) -> bool {
    &&& forall|i: int, j: int|
        0 <= i < j < entries.len() ==> (#[trigger] entries[i]).key != (#[trigger] entries[j]).key
    &&& forall|k: K::V| #[trigger] changed.dom().contains(k) <==> has_key(entries, entries.len(), k)
    &&& forall|i: int|
        0 <= i < entries.len() ==> match (#[trigger] entries[i]).row {
            None => changed[entries[i].key] is None,
            Some(v) => F::own(v) == entries[i].key && changed[entries[i].key] == Some(F::stored(v)),
        }
}

/// Whether one of the first `n` entries is of this key.
pub open spec fn has_key<K, F>(entries: Seq<EntryView<K, F>>, n: nat, k: K) -> bool {
    exists|i: int| 0 <= i < n && (#[trigger] entries[i]).key == k
}

/// Whether the Properties of a Node are these, each once, in any order.
pub open spec fn properties_tell(
    properties: Seq<FramePropertyView>,
    rows: Map<Seq<char>, PropertyRowView>,
) -> bool {
    &&& forall|i: int, j: int|
        0 <= i < j < properties.len() ==> (#[trigger] properties[i]).key != (
        #[trigger] properties[j]).key
    &&& forall|k: Seq<char>| #[trigger]
        rows.dom().contains(k) <==> has_property(properties, properties.len(), k)
    &&& forall|i: int|
        0 <= i < properties.len() ==> rows[(#[trigger] properties[i]).key] == (PropertyRowView {
            value: properties[i].value,
            modified_revision: properties[i].modified_revision,
        })
}

/// Whether one of the first `n` Properties is of this key.
pub open spec fn has_property(properties: Seq<FramePropertyView>, n: nat, k: Seq<char>) -> bool {
    exists|i: int| 0 <= i < n && (#[trigger] properties[i]).key == k
}

/// Whether a Node of a frame is this row under this ID.
pub open spec fn node_tells(node: FrameNodeView, id: NodeId, row: NodeRowView) -> bool {
    &&& node.id == id
    &&& node.lifecycle_state == row.lifecycle_state
    &&& node.created_revision == row.created_revision
    &&& node.modified_revision == row.modified_revision
    &&& properties_tell(node.properties, row.properties)
}

/// Whether entries say of every Node what became of it: each once, in any order.
pub open spec fn nodes_tell(
    entries: Seq<EntryView<NodeId, FrameNodeView>>,
    changed: Map<NodeId, Option<NodeRowView>>,
) -> bool {
    &&& forall|i: int, j: int|
        0 <= i < j < entries.len() ==> (#[trigger] entries[i]).key != (#[trigger] entries[j]).key
    &&& forall|k: NodeId| #[trigger] changed.dom().contains(k) <==> has_key(entries, entries.len(), k)
    &&& forall|i: int|
        0 <= i < entries.len() ==> match (#[trigger] entries[i]).row {
            None => changed[entries[i].key] is None,
            Some(node) => changed[entries[i].key] is Some && node_tells(
                node,
                entries[i].key,
                changed[entries[i].key]->0,
            ),
        }
}

/// Whether a frame is one that is written of a patch.
pub open spec fn written_of(f: FrameView, p: PatchView) -> bool {
    &&& f.from_revision == p.from_revision
    &&& f.target_revision == p.target_revision
    &&& f.change_count == p.change_count
    &&& f.issued.to_set() == p.issued
    &&& nodes_tell(f.nodes, p.nodes)
    &&& entries_tell::<Relationship, RelationshipRow, FrameRelationship>(
        f.relationships,
        p.relationships,
    )
    &&& entries_tell::<String, PropertyDefinitionRow, PropertyDefinitionRow>(
        f.property_definitions,
        p.property_definitions,
    )
    &&& entries_tell::<String, RelationshipDefinitionRow, RelationshipDefinitionRow>(
        f.relationship_definitions,
        kept_slots(p.relationship_definitions),
    )
}

proof fn lemma_entries_overlay<K: TableKey, R: TableRow, F: FrameRow<K, R>>(
    rows: Map<K::V, R::V>,
    entries: Seq<EntryView<K::V, F::V>>,
    changed: Map<K::V, Option<R::V>>,
    n: nat,
)
    requires
        n <= entries.len(),
        entries_tell::<K, R, F>(entries, changed),
        forall|i: int|
            0 <= i < entries.len() && (#[trigger] entries[i]).row is Some ==> F::fits(
                entries[i].row->0,
            ),
    ensures
        entries_applied::<K, R, F>(rows, entries, n) == Some(
            overlay(rows, changed.restrict(Set::new(|k: K::V| has_key(entries, n, k)))),
        ),
    decreases n,
{
    let now = changed.restrict(Set::new(|k: K::V| has_key(entries, n, k)));
    if n == 0 {
        assert(overlay(rows, now) =~= rows) by {
            assert(now.dom() =~= Set::empty());
        }
    } else {
        let m = (n - 1) as nat;
        let was = changed.restrict(Set::new(|k: K::V| has_key(entries, m, k)));
        lemma_entries_overlay::<K, R, F>(rows, entries, changed, m);
        let before = overlay(rows, was);
        let e = entries[n - 1];
        assert(has_key(entries, entries.len(), e.key));
        assert(changed.dom().contains(e.key));
        assert forall|k: K::V| #[trigger] has_key(entries, n, k) <==> has_key(entries, m, k) || k
            == e.key by {
            if has_key(entries, m, k) {
                let i = choose|i: int| 0 <= i < m && (#[trigger] entries[i]).key == k;
                assert(entries[i].key == k);
            }
            if k == e.key {
                assert(entries[n - 1].key == k);
            }
        }
        assert(now.dom() =~= was.dom().insert(e.key)) by {
            assert forall|k: K::V| now.dom().contains(k) <==> was.dom().insert(
                e.key,
            ).contains(k) by {
                assert(has_key(entries, n, k) <==> has_key(entries, m, k) || k == e.key);
            }
        }
        let after = entry_applied::<K, R, F>(before, e);
        match e.row {
            None => {
                assert(overlay(rows, now) =~= before.remove(e.key));
            },
            Some(v) => {
                assert(F::fits(entries[n - 1].row->0));
                assert(overlay(rows, now) =~= before.remove(e.key).insert(
                    e.key,
                    F::stored(v),
                ));
            },
        }
        assert(after == Some(overlay(rows, now)));
    }
}

/// Entries that say of every key what became of its row bring the table up to date.
proof fn lemma_entries_apply<K: TableKey, R: TableRow, F: FrameRow<K, R>>(
    rows: Map<K::V, R::V>,
    entries: Seq<EntryView<K::V, F::V>>,
    changed: Map<K::V, Option<R::V>>,
)
    requires
        entries_tell::<K, R, F>(entries, changed),
        forall|i: int|
            0 <= i < entries.len() && (#[trigger] entries[i]).row is Some ==> F::fits(
                entries[i].row->0,
            ),
    ensures
        entries_applied::<K, R, F>(rows, entries, entries.len()) == Some(overlay(rows, changed)),
{
    lemma_entries_overlay::<K, R, F>(rows, entries, changed, entries.len());
    let all = Set::new(|k: K::V| has_key(entries, entries.len(), k));
    assert(changed.restrict(all) =~= changed) by {
        assert forall|k: K::V| changed.dom().contains(k) <==> changed.restrict(all).dom().contains(
            k,
        ) by {
            assert(changed.dom().contains(k) <==> has_key(entries, entries.len(), k));
        }
    }
}

proof fn lemma_properties_apply(
    properties: Seq<FramePropertyView>,
    rows: Map<Seq<char>, PropertyRowView>,
    n: nat,
)
    requires
        n <= properties.len(),
        properties_tell(properties, rows),
        property_rows_ok(rows),
        forall|k: Seq<char>| #[trigger]
            rows.dom().contains(k) ==> value_fault(rows[k].value) is None,
    ensures
        properties_applied(properties, n) == Ok::<Map<Seq<char>, PropertyRowView>, ErrorView>(
            rows.restrict(Set::new(|k: Seq<char>| has_property(properties, n, k))),
        ),
    decreases n,
{
    let now = rows.restrict(Set::new(|k: Seq<char>| has_property(properties, n, k)));
    if n == 0 {
        assert(now =~= Map::empty()) by {
            assert(now.dom() =~= Set::empty());
        }
    } else {
        let m = (n - 1) as nat;
        let was = rows.restrict(Set::new(|k: Seq<char>| has_property(properties, m, k)));
        lemma_properties_apply(properties, rows, m);
        let p = properties[n - 1];
        assert(has_property(properties, properties.len(), p.key));
        assert(rows.dom().contains(p.key));
        assert(!has_property(properties, m, p.key));
        assert forall|k: Seq<char>| #[trigger] has_property(properties, n, k) <==> has_property(
            properties,
            m,
            k,
        ) || k == p.key by {
            if has_property(properties, m, k) {
                let i = choose|i: int| 0 <= i < m && (#[trigger] properties[i]).key == k;
                assert(properties[i].key == k);
            }
            if k == p.key {
                assert(properties[n - 1].key == k);
            }
        }
        assert(now =~= was.insert(p.key, rows[p.key])) by {
            assert forall|k: Seq<char>| now.dom().contains(k) <==> was.insert(
                p.key,
                rows[p.key],
            ).dom().contains(k) by {
                assert(has_property(properties, n, k) <==> has_property(properties, m, k) || k
                    == p.key);
            }
        }
    }
}

proof fn lemma_nodes_overlay(
    nodes: Map<NodeId, NodeRowView>,
    entries: Seq<EntryView<NodeId, FrameNodeView>>,
    p: PatchView,
    n: nat,
)
    requires
        n <= entries.len(),
        nodes_tell(entries, p.nodes),
        rows_ok(p),
        !exists|fault: ErrorView| brings_refused_value(p, fault),
    ensures
        nodes_applied(nodes, entries, n) == Ok::<Map<NodeId, NodeRowView>, ErrorView>(
            overlay(nodes, p.nodes.restrict(Set::new(|k: NodeId| has_key(entries, n, k)))),
        ),
    decreases n,
{
    let changed = p.nodes;
    let now = changed.restrict(Set::new(|k: NodeId| has_key(entries, n, k)));
    if n == 0 {
        assert(overlay(nodes, now) =~= nodes) by {
            assert(now.dom() =~= Set::empty());
        }
    } else {
        let m = (n - 1) as nat;
        let was = changed.restrict(Set::new(|k: NodeId| has_key(entries, m, k)));
        lemma_nodes_overlay(nodes, entries, p, m);
        let before = overlay(nodes, was);
        let e = entries[n - 1];
        assert(has_key(entries, entries.len(), e.key));
        assert(changed.dom().contains(e.key));
        assert forall|k: NodeId| #[trigger] has_key(entries, n, k) <==> has_key(entries, m, k) || k
            == e.key by {
            if has_key(entries, m, k) {
                let i = choose|i: int| 0 <= i < m && (#[trigger] entries[i]).key == k;
                assert(entries[i].key == k);
            }
            if k == e.key {
                assert(entries[n - 1].key == k);
            }
        }
        assert(now.dom() =~= was.dom().insert(e.key)) by {
            assert forall|k: NodeId| now.dom().contains(k) <==> was.dom().insert(
                e.key,
            ).contains(k) by {
                assert(has_key(entries, n, k) <==> has_key(entries, m, k) || k == e.key);
            }
        }
        match e.row {
            None => {
                assert(overlay(nodes, now) =~= before.remove(e.key));
            },
            Some(node) => {
                let row = changed[e.key]->0;
                assert(node_tells(node, e.key, row));
                assert(node_row_ok(row));
                assert forall|k: Seq<char>| #[trigger]
                    row.properties.dom().contains(k) implies value_fault(row.properties[k].value)
                    is None by {
                    let fault = refused_value(p, e.key, k);
                    if fault is Some {
                        assert(brings_refused_value(p, fault->0));
                    }
                }
                let all = node.properties.len();
                lemma_properties_apply(node.properties, row.properties, all);
                let told = Set::new(|k: Seq<char>| has_property(node.properties, all, k));
                assert(row.properties.restrict(told) =~= row.properties) by {
                    assert forall|k: Seq<char>| row.properties.dom().contains(k)
                        <==> row.properties.restrict(told).dom().contains(k) by {
                        assert(row.properties.dom().contains(k) <==> has_property(
                            node.properties,
                            all,
                            k,
                        ));
                    }
                }
                assert(node_applied(node) == Ok::<NodeRowView, ErrorView>(row));
                assert(overlay(nodes, now) =~= before.insert(e.key, row));
            },
        }
    }
}

/// A recovery candidate that takes a patch takes the frame that is written of it, and becomes what
/// the patch makes of it.
pub proof fn law_written_frame_applies(m: RecordModel, p: PatchView, f: FrameView)
    requires
        written_of(f, p),
        takes(m, p),
    ensures
        frame_result(m, f) == Ok::<RecordModel, ErrorView>(patched(m, p)),
{
    let all = f.nodes.len();
    lemma_nodes_overlay(m.nodes, f.nodes, p, all);
    let told = Set::new(|k: NodeId| has_key(f.nodes, all, k));
    assert(p.nodes.restrict(told) =~= p.nodes) by {
        assert forall|k: NodeId| p.nodes.dom().contains(k) <==> p.nodes.restrict(
            told,
        ).dom().contains(k) by {
            assert(p.nodes.dom().contains(k) <==> has_key(f.nodes, all, k));
        }
    }
    assert forall|i: int|
        0 <= i < f.relationships.len() && (
        #[trigger] f.relationships[i]).row is Some implies FrameRelationship::fits(
        f.relationships[i].row->0,
    ) by {
        let k = f.relationships[i].key;
        assert(has_key(f.relationships, f.relationships.len(), k));
        assert(p.relationships.dom().contains(k));
    }
    assert forall|i: int|
        0 <= i < f.property_definitions.len() && (
        #[trigger] f.property_definitions[i]).row is Some implies PropertyDefinitionRow::fits(
        f.property_definitions[i].row->0,
    ) by {
        let k = f.property_definitions[i].key;
        assert(has_key(f.property_definitions, f.property_definitions.len(), k));
        assert(p.property_definitions.dom().contains(k));
    }
    let kept = kept_slots(p.relationship_definitions);
    assert forall|i: int|
        0 <= i < f.relationship_definitions.len() && (
        #[trigger] f.relationship_definitions[i]).row is Some implies RelationshipDefinitionRow::fits(
        f.relationship_definitions[i].row->0,
    ) by {
        let k = f.relationship_definitions[i].key;
        assert(has_key(f.relationship_definitions, f.relationship_definitions.len(), k));
        assert(kept.dom().contains(k));
        assert(p.relationship_definitions.dom().contains(k));
    }
    lemma_entries_apply::<Relationship, RelationshipRow, FrameRelationship>(
        m.relationships,
        f.relationships,
        p.relationships,
    );
    lemma_entries_apply::<String, PropertyDefinitionRow, PropertyDefinitionRow>(
        m.property_definitions,
        f.property_definitions,
        p.property_definitions,
    );
    lemma_entries_apply::<String, RelationshipDefinitionRow, RelationshipDefinitionRow>(
        m.relationship_definitions,
        f.relationship_definitions,
        kept,
    );
    assert(frame_issued(f) =~= issued_by(p)) by {
        assert forall|id: NodeId| frame_issued(f).contains(id) <==> issued_by(p).contains(id) by {
            assert(f.issued.contains(id) <==> f.issued.to_set().contains(id));
            if brings_node(f.nodes, all, id) {
                let i = choose|i: int|
                    0 <= i < all && (#[trigger] f.nodes[i]).row is Some && f.nodes[i].row->0.id
                        == id;
                assert(f.nodes[i].key == id);
                assert(has_key(f.nodes, all, id));
            }
            if p.nodes.dom().contains(id) && p.nodes[id] is Some {
                assert(has_key(f.nodes, all, id));
                let i = choose|i: int| 0 <= i < all && (#[trigger] f.nodes[i]).key == id;
                assert(f.nodes[i].row is Some);
            }
        }
    }
    assert(patched(m, p) =~= (RecordModel {
        revision: f.target_revision,
        issued: m.issued.union(frame_issued(f)),
        nodes: overlay(m.nodes, p.nodes),
        relationships: overlay(m.relationships, p.relationships),
        property_definitions: overlay(m.property_definitions, p.property_definitions),
        relationship_definitions: overlay(m.relationship_definitions, kept),
        journal: Seq::empty(),
    }));
}

/// Every definition of a table still stands under its own key after entries.
proof fn lemma_definitions_keyed(m: RecordModel, f: FrameView, n: RecordModel)
    requires
        keyed(m.property_definitions, m.relationship_definitions),
        entries_applied::<String, PropertyDefinitionRow, PropertyDefinitionRow>(
            m.property_definitions,
            f.property_definitions,
            f.property_definitions.len(),
        ) == Some(n.property_definitions),
        entries_applied::<String, RelationshipDefinitionRow, RelationshipDefinitionRow>(
            m.relationship_definitions,
            f.relationship_definitions,
            f.relationship_definitions.len(),
        ) == Some(n.relationship_definitions),
    ensures
        keyed(n.property_definitions, n.relationship_definitions),
{
    let p = |k: Seq<char>, row: PropertyDefinitionRowView| row.definition.key == k;
    let r = |k: Seq<char>, row: RelationshipDefinitionRowView| row.definition.key == k;
    lemma_entries_keep::<String, PropertyDefinitionRow, PropertyDefinitionRow>(
        m.property_definitions,
        f.property_definitions,
        f.property_definitions.len(),
        p,
    );
    lemma_entries_keep::<String, RelationshipDefinitionRow, RelationshipDefinitionRow>(
        m.relationship_definitions,
        f.relationship_definitions,
        f.relationship_definitions.len(),
        r,
    );
    let q = entries_applied::<String, PropertyDefinitionRow, PropertyDefinitionRow>(
        m.property_definitions,
        f.property_definitions,
        f.property_definitions.len(),
    )->0;
    let s = entries_applied::<String, RelationshipDefinitionRow, RelationshipDefinitionRow>(
        m.relationship_definitions,
        f.relationship_definitions,
        f.relationship_definitions.len(),
    )->0;
    assert forall|k: Seq<char>| #[trigger]
        n.property_definitions.dom().contains(k) implies n.property_definitions[k].definition.key
        == k by {
        assert(q.dom().contains(k));
        assert(p(k, n.property_definitions[k]));
    }
    assert forall|k: Seq<char>| #[trigger]
        n.relationship_definitions.dom().contains(
            k,
        ) implies n.relationship_definitions[k].definition.key == k by {
        assert(s.dom().contains(k));
        assert(r(k, n.relationship_definitions[k]));
    }
}

/// What holds of every row of a table, and of every row that comes, holds after entries.
proof fn lemma_entries_keep<K: TableKey, R: TableRow, F: FrameRow<K, R>>(
    rows: Map<K::V, R::V>,
    entries: Seq<EntryView<K::V, F::V>>,
    n: nat,
    holds: spec_fn(K::V, R::V) -> bool,
)
    requires
        n <= entries.len(),
        entries_applied::<K, R, F>(rows, entries, n) is Some,
        forall|k: K::V| #[trigger] rows.dom().contains(k) ==> holds(k, rows[k]),
        forall|v: F::V| holds(#[trigger] F::own(v), F::stored(v)),
    ensures
        forall|k: K::V| #[trigger]
            (entries_applied::<K, R, F>(rows, entries, n)->0).dom().contains(k) ==> holds(
                k,
                (entries_applied::<K, R, F>(rows, entries, n)->0)[k],
            ),
    decreases n,
{
    if n > 0 {
        lemma_entries_keep::<K, R, F>(rows, entries, (n - 1) as nat, holds);
        let before = entries_applied::<K, R, F>(rows, entries, (n - 1) as nat)->0;
        let after = entries_applied::<K, R, F>(rows, entries, n)->0;
        assert forall|k: K::V| #[trigger] after.dom().contains(k) implies holds(k, after[k]) by {
            match entries[n - 1].row {
                None => {
                    assert(before.dom().contains(k));
                },
                Some(v) => {
                    if k != F::own(v) {
                        assert(before.dom().contains(k));
                    }
                },
            }
        }
    }
}

/// The entries that are written of rows that changed.
pub open spec fn entries_written<K: TableKey, R: TableRow, F: FrameRow<K, R>>(
    keys: Seq<K::V>,
    changed: Map<K::V, Option<R::V>>,
) -> Seq<EntryView<K::V, F::V>> {
    Seq::new(
        keys.len(),
        |i: int|
            EntryView {
                key: keys[i],
                row: match changed[keys[i]] {
                    Some(row) => Some(F::written(keys[i], row)),
                    None => None,
                },
            },
    )
}

fn write_entries<K: TableKey, R: TableRow, F: FrameRow<K, R>>(table: &Table<K, Slot<R>>) -> (r: Vec<
    Entry<K, F>,
>)
    requires
        table.wf(),
    ensures
        entries_view(r@) == entries_written::<K, R, F>(table.keys(), table@),
{
    let mut r: Vec<Entry<K, F>> = Vec::new();
    let ghost all = entries_written::<K, R, F>(table.keys(), table@);
    let mut i: usize = 0;
    while i < table.len()
        invariant
            table.wf(),
            all == entries_written::<K, R, F>(table.keys(), table@),
            i <= table.keys().len(),
            r@.len() == i,
            forall|j: int| 0 <= j < i ==> (#[trigger] r@[j])@ == all[j],
        decreases table.keys().len() - i,
    {
        let key = table.key_at(i);
        let row = match &table.row_at(i).row {
            Some(row) => Some(F::write(key, row)),
            None => None,
        };
        r.push(Entry { key: key.copy_key(), row });
        i = i + 1;
    }
    proof {
        assert(entries_view(r@) =~= all);
    }
    r
}

/// What is written of rows that changed tells what became of them.
proof fn lemma_written_tell<K: TableKey, R: TableRow, F: FrameRow<K, R>>(
    keys: Seq<K::V>,
    changed: Map<K::V, Option<R::V>>,
    told: Map<K::V, Option<R::V>>,
)
    requires
        lists::<K>(keys, changed.dom()),
        told.dom() == changed.dom(),
        forall|k: K::V| #[trigger]
            changed.dom().contains(k) ==> match changed[k] {
                Some(row) => F::own(F::written(k, row)) == k && told[k] == Some(
                    F::stored(F::written(k, row)),
                ),
                None => told[k] is None,
            },
    ensures
        entries_tell::<K, R, F>(entries_written::<K, R, F>(keys, changed), told),
{
    let entries = entries_written::<K, R, F>(keys, changed);
    assert forall|i: int, j: int| 0 <= i < j < entries.len() implies (#[trigger] entries[i]).key != (
    #[trigger] entries[j]).key by {
        assert(K::before(keys[i], keys[j]));
        K::before_irreflexive(keys[i]);
    }
    assert forall|k: K::V| #[trigger] told.dom().contains(k) <==> has_key(
        entries,
        entries.len(),
        k,
    ) by {
        if told.dom().contains(k) {
            assert(keys.contains(k));
            assert(entries[keys.index_of(k)].key == k);
        }
        if has_key(entries, entries.len(), k) {
            let i = choose|i: int| 0 <= i < entries.len() && (#[trigger] entries[i]).key == k;
            assert(keys[i] == k);
            assert(keys.contains(k));
        }
    }
    assert forall|i: int| 0 <= i < entries.len() implies match (#[trigger] entries[i]).row {
        None => told[entries[i].key] is None,
        Some(v) => F::own(v) == entries[i].key && told[entries[i].key] == Some(F::stored(v)),
    } by {
        assert(keys.contains(keys[i]));
        assert(changed.dom().contains(keys[i]));
    }
}

fn write_node(id: NodeId, row: &NodeRow) -> (r: FrameNode)
    requires
        row.sound(),
    ensures
        node_tells(r@, id, row@),
{
    let table = &row.properties;
    let mut properties: Vec<FrameProperty> = Vec::new();
    let mut i: usize = 0;
    while i < table.len()
        invariant
            table.wf(),
            table == &row.properties,
            i <= table.keys().len(),
            properties@.len() == i,
            forall|j: int|
                0 <= j < i ==> (#[trigger] properties@[j])@ == (FramePropertyView {
                    key: table.keys()[j],
                    value: table@[table.keys()[j]].value,
                    modified_revision: table@[table.keys()[j]].modified_revision,
                }),
        decreases table.keys().len() - i,
    {
        let property = table.row_at(i);
        properties.push(
            FrameProperty {
                key: table.key_at(i).clone(),
                value: property.value.clone(),
                modified_revision: property.modified_revision,
            },
        );
        i = i + 1;
    }
    let r = FrameNode {
        id,
        lifecycle_state: row.lifecycle_state,
        created_revision: row.created_revision,
        modified_revision: row.modified_revision,
        properties,
    };
    proof {
        table.lemma_view();
        let keys = table.keys();
        let all = r@.properties;
        assert forall|a: int, b: int| 0 <= a < b < all.len() implies (#[trigger] all[a]).key != (
        #[trigger] all[b]).key by {
            assert(all[a] == properties@[a]@ && all[b] == properties@[b]@);
            assert(String::before(keys[a], keys[b]));
            String::before_irreflexive(keys[a]);
        }
        assert forall|k: Seq<char>| #[trigger] row@.properties.dom().contains(k) <==> has_property(
            all,
            all.len(),
            k,
        ) by {
            if row@.properties.dom().contains(k) {
                assert(keys.contains(k));
                let a = keys.index_of(k);
                assert(all[a] == properties@[a]@);
                assert(all[a].key == k);
            }
            if has_property(all, all.len(), k) {
                let a = choose|a: int| 0 <= a < all.len() && (#[trigger] all[a]).key == k;
                assert(all[a] == properties@[a]@);
                assert(keys[a] == k);
            }
        }
        assert forall|a: int| 0 <= a < all.len() implies row@.properties[(#[trigger] all[a]).key]
            == (PropertyRowView {
            value: all[a].value,
            modified_revision: all[a].modified_revision,
        }) by {
            assert(all[a] == properties@[a]@);
        }
    }
    r
}

fn write_nodes(table: &Table<NodeId, Slot<NodeRow>>) -> (r: Vec<Entry<NodeId, FrameNode>>)
    requires
        table.wf(),
    ensures
        nodes_tell(entries_view(r@), table@),
{
    let mut r: Vec<Entry<NodeId, FrameNode>> = Vec::new();
    let mut i: usize = 0;
    while i < table.len()
        invariant
            table.wf(),
            i <= table.keys().len(),
            r@.len() == i,
            forall|j: int|
                0 <= j < i ==> (#[trigger] r@[j])@.key == table.keys()[j] && match r@[j]@.row {
                    None => table@[table.keys()[j]] is None,
                    Some(node) => table@[table.keys()[j]] is Some && node_tells(
                        node,
                        table.keys()[j],
                        table@[table.keys()[j]]->0,
                    ),
                },
        decreases table.keys().len() - i,
    {
        let id = *table.key_at(i);
        let row = match &table.row_at(i).row {
            Some(row) => Some(write_node(id, row)),
            None => None,
        };
        r.push(Entry { key: id, row });
        i = i + 1;
    }
    proof {
        table.lemma_view();
        let keys = table.keys();
        let all = entries_view(r@);
        assert forall|a: int, b: int| 0 <= a < b < all.len() implies (#[trigger] all[a]).key != (
        #[trigger] all[b]).key by {
            assert(all[a] == r@[a]@ && all[b] == r@[b]@);
            assert(NodeId::before(keys[a], keys[b]));
            NodeId::before_irreflexive(keys[a]);
        }
        assert forall|k: NodeId| #[trigger] table@.dom().contains(k) <==> has_key(
            all,
            all.len(),
            k,
        ) by {
            if table@.dom().contains(k) {
                assert(keys.contains(k));
                let a = keys.index_of(k);
                assert(all[a] == r@[a]@);
                assert(all[a].key == k);
            }
            if has_key(all, all.len(), k) {
                let a = choose|a: int| 0 <= a < all.len() && (#[trigger] all[a]).key == k;
                assert(all[a] == r@[a]@);
                assert(keys[a] == k);
            }
        }
        assert forall|a: int| 0 <= a < all.len() implies match (#[trigger] all[a]).row {
            None => table@[all[a].key] is None,
            Some(node) => table@[all[a].key] is Some && node_tells(
                node,
                all[a].key,
                table@[all[a].key]->0,
            ),
        } by {
            assert(all[a] == r@[a]@);
        }
    }
    r
}

impl ProjectionPatch {
    /// The frame that is written of the patch.
    pub fn frame(&self) -> (r: PatchFrame)
        requires
            self.wf(),
        ensures
            written_of(r@, self@),
    {
        let ids = &self.issued_node_ids;
        let mut issued_node_ids: Vec<NodeId> = Vec::new();
        let mut i: usize = 0;
        while i < ids.len()
            invariant
                ids.wf(),
                i <= ids.keys().len(),
                issued_node_ids@ == ids.keys().subrange(0, i as int),
            decreases ids.keys().len() - i,
        {
            issued_node_ids.push(*ids.key_at(i));
            i = i + 1;
            proof {
                assert(issued_node_ids@ =~= ids.keys().subrange(0, i as int));
            }
        }
        proof {
            ids.lemma_view();
            assert(issued_node_ids@ =~= ids.keys());
            assert(issued_node_ids@.to_set() =~= self@.issued);
            self.relationships.lemma_view();
            self.property_definitions.lemma_view();
            self.relationship_definitions.lemma_view();
            lemma_written_tell::<Relationship, RelationshipRow, FrameRelationship>(
                self.relationships.keys(),
                self.relationships@,
                self.relationships@,
            );
            lemma_written_tell::<String, PropertyDefinitionRow, PropertyDefinitionRow>(
                self.property_definitions.keys(),
                self.property_definitions@,
                self.property_definitions@,
            );
            let definitions = self.relationship_definitions@;
            assert(kept_slots(definitions).dom() =~= definitions.dom());
            lemma_written_tell::<String, RelationshipDefinitionRow, RelationshipDefinitionRow>(
                self.relationship_definitions.keys(),
                definitions,
                kept_slots(definitions),
            );
        }
        PatchFrame {
            from_revision: self.from_revision,
            target_revision: self.target_revision,
            change_count: self.change_count,
            issued_node_ids,
            nodes: write_nodes(&self.nodes),
            relationships: write_entries(&self.relationships),
            property_definitions: write_entries(&self.property_definitions),
            relationship_definitions: write_entries(&self.relationship_definitions),
        }
    }
}

} // verus!
