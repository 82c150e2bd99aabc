//! Bringing a recovery candidate forward by a patch.
use vstd::prelude::*;
use crate::api::RelationshipView;
use crate::error::ErrorView;
use crate::id::NodeId;
use crate::record_store::definitions::{keep_label, kept_label};
use crate::record_store::model::{
    NodeRowView, PropertyRowView, RecordModel, RecordStore, RelationshipDefinitionRow,
    RelationshipDefinitionRowView, RelationshipRow,
};
use crate::record_store::projection::PatchView;
use crate::table::{overlay, projected_slots, Projects, Table};
use crate::text::decimal_of;
use crate::value::{kept_value, value_fault};

verus! {

/// A segment that does not begin where the store stands, or does not lead forward.
pub open spec fn segment_out_of_place(m: RecordModel, from: u64, target: u64) -> ErrorView {
    ErrorView::CorruptStore {
        store: "Record recovery segment"@,
        reason: "segment "@ + decimal_of(from as nat) + ".."@ + decimal_of(target as nat)
            + " cannot follow candidate revision "@ + decimal_of(m.revision as nat),
    }
}

/// Whether a patch begins where the store stands and leads forward.
pub open spec fn in_place(m: RecordModel, p: PatchView) -> bool {
    m.revision == p.from_revision && p.target_revision > p.from_revision
}

/// Whether a patch brings a value that is refused for this reason.
pub open spec fn brings_refused_value(p: PatchView, fault: ErrorView) -> bool {
    exists|id: NodeId, key: Seq<char>| #[trigger] refused_value(p, id, key) == Some(fault)
}

/// Why the value that a patch brings for a Property is refused.
pub open spec fn refused_value(p: PatchView, id: NodeId, key: Seq<char>) -> Option<ErrorView> {
    if p.nodes.dom().contains(id) && p.nodes[id] is Some && p.nodes[id]->0.properties.dom().contains(
        key,
    ) {
        value_fault(p.nodes[id]->0.properties[key].value)
    } else {
        None
    }
}

/// Whether a fact can have come and been changed at these revisions.
pub open spec fn dated(created: u64, modified: u64) -> bool {
    0 < created <= modified <= i64::MAX
}

/// Whether the tables take a key: what they measure of it, which ends at the first NUL, is not
/// empty.
pub open spec fn key_taken(key: Seq<char>) -> bool {
    key.len() > 0 && key[0] != '\0'
}

/// Whether the table of Properties takes these rows and keeps their values as they are.
pub open spec fn property_rows_ok(properties: Map<Seq<char>, PropertyRowView>) -> bool {
    forall|k: Seq<char>| #[trigger]
        properties.dom().contains(k) ==> key_taken(k) && 0 < properties[k].modified_revision
            <= i64::MAX && kept_value(properties[k].value) == properties[k].value
}

/// Whether the table of Nodes takes this row, and the table of Properties its Properties.
pub open spec fn node_row_ok(row: NodeRowView) -> bool {
    dated(row.created_revision, row.modified_revision) && property_rows_ok(row.properties)
}

/// Whether the table of Relationships takes this row.
pub open spec fn relationship_row_ok(r: RelationshipView, row: RelationshipRow) -> bool {
    key_taken(r.key) && dated(row.created_revision, row.modified_revision)
}

/// Whether a table of definitions takes a row with this key, version and revision.
pub open spec fn definition_row_ok(key: Seq<char>, version: u64, modified: u64) -> bool {
    key_taken(key) && 0 < version <= i64::MAX && 0 < modified <= i64::MAX
}

/// Whether every table takes what a patch brings for it.
pub open spec fn rows_ok(p: PatchView) -> bool {
    &&& p.target_revision <= i64::MAX
    &&& forall|id: NodeId| #[trigger]
        p.nodes.dom().contains(id) && p.nodes[id] is Some ==> node_row_ok(p.nodes[id]->0)
    &&& forall|r: RelationshipView| #[trigger]
        p.relationships.dom().contains(r) && p.relationships[r] is Some ==> relationship_row_ok(
            r,
            p.relationships[r]->0,
        )
    &&& forall|k: Seq<char>| #[trigger]
        p.property_definitions.dom().contains(k) && p.property_definitions[k] is Some
            ==> definition_row_ok(
            k,
            p.property_definitions[k]->0.definition.version,
            p.property_definitions[k]->0.modified_revision,
        )
    &&& forall|k: Seq<char>| #[trigger]
        p.relationship_definitions.dom().contains(k) && p.relationship_definitions[k] is Some
            ==> definition_row_ok(
            k,
            p.relationship_definitions[k]->0.definition.version,
            p.relationship_definitions[k]->0.modified_revision,
        )
}

/// Whether the ends of every Relationship are issued, and every replacement is there.
pub open spec fn references_ok(m: RecordModel) -> bool {
    &&& forall|r: RelationshipView| #[trigger]
        m.relationships.dom().contains(r) ==> m.issued.contains(r.source) && m.issued.contains(
            r.target,
        )
    &&& forall|k: Seq<char>| #[trigger]
        m.property_definitions.dom().contains(k) ==> match m.property_definitions[k].definition.replacement_key {
            Some(other) => m.property_definitions.dom().contains(other),
            None => true,
        }
    &&& forall|k: Seq<char>| #[trigger]
        m.relationship_definitions.dom().contains(k) ==> match m.relationship_definitions[k].definition.replacement_key {
            Some(other) => m.relationship_definitions.dom().contains(other),
            None => true,
        }
}

/// The IDs that a patch says are issued: those it names, and those of the Nodes it brings.
pub open spec fn issued_by(p: PatchView) -> Set<NodeId> {
    Set::new(
        |id: NodeId|
            p.issued.contains(id) || (p.nodes.dom().contains(id) && p.nodes[id] is Some),
    )
}

/// A Relationship definition as the store keeps it.
pub open spec fn kept_row(row: RelationshipDefinitionRowView) -> RelationshipDefinitionRowView {
    RelationshipDefinitionRowView {
        definition: crate::api::RelationshipDefinitionView {
            inverse_label: kept_label(row.definition.inverse_label),
            ..row.definition
        },
        ..row
    }
}

/// The Relationship definitions of a patch as the store keeps them.
pub open spec fn kept_slots(
    changed: Map<Seq<char>, Option<RelationshipDefinitionRowView>>,
) -> Map<Seq<char>, Option<RelationshipDefinitionRowView>> {
    projected_slots::<Seq<char>, RelationshipDefinitionRow, RelationshipDefinitionRow>(changed)
}

/// The store after a patch: what changed is as the patch says, the rest is as it was, and the
/// journal is empty.
pub open spec fn patched(m: RecordModel, p: PatchView) -> RecordModel {
    RecordModel {
        revision: p.target_revision,
        issued: m.issued.union(issued_by(p)),
        nodes: overlay(m.nodes, p.nodes),
        relationships: overlay(m.relationships, p.relationships),
        property_definitions: overlay(m.property_definitions, p.property_definitions),
        relationship_definitions: overlay(
            m.relationship_definitions,
            kept_slots(p.relationship_definitions),
        ),
        journal: Seq::empty(),
    }
}

/// Whether a recovery candidate takes a patch.
pub open spec fn takes(m: RecordModel, p: PatchView) -> bool {
    &&& in_place(m, p)
    &&& !exists|fault: ErrorView| brings_refused_value(p, fault)
    &&& rows_ok(p)
    &&& references_ok(patched(m, p))
}

/// Whether every place of a run of keys is that of a member.
proof fn lemma_by_place<K: crate::table::TableKey, V: crate::table::TableRow>(
    table: &Table<K, V>,
    holds: spec_fn(K::V) -> bool,
)
    requires
        table.wf(),
        forall|j: int| 0 <= j < table.keys().len() ==> holds(#[trigger] table.keys()[j]),
    ensures
        forall|k: K::V| #[trigger] table@.dom().contains(k) ==> holds(k),
{
    table.lemma_view();
    assert forall|k: K::V| #[trigger] table@.dom().contains(k) implies holds(k) by {
        assert(table.keys().contains(k));
        let j = table.keys().index_of(k);
        assert(table.keys()[j] == k);
    }
}

impl Projects<RelationshipDefinitionRow> for RelationshipDefinitionRow {
    open spec fn projected(row: RelationshipDefinitionRowView) -> RelationshipDefinitionRowView {
        kept_row(row)
    }

    fn project(&self) -> (r: RelationshipDefinitionRow) {
        let mut definition = self.definition.clone();
        definition.inverse_label = keep_label(&self.definition.inverse_label);
        RelationshipDefinitionRow { definition, modified_revision: self.modified_revision }
    }
}

impl RecordStore {
    /// Whether the ends of every Relationship are issued, and every replacement is there.
    pub fn references_are_ok(&self) -> (r: bool)
        requires
            self.tables_ok(),
        ensures
            r == references_ok(self@),
    {
        let table = &self.relationships;
        let ghost holds = |k: RelationshipView|
            self@.issued.contains(k.source) && self@.issued.contains(k.target);
        let mut i: usize = 0;
        while i < table.len()
            invariant
                self.tables_ok(),
                table == &self.relationships,
                holds == (|k: RelationshipView|
                    self@.issued.contains(k.source) && self@.issued.contains(k.target)),
                i <= table.keys().len(),
                forall|j: int| 0 <= j < i ==> holds(#[trigger] table.keys()[j]),
            decreases table.keys().len() - i,
        {
            proof {
                table.lemma_view();
                assert(self@.relationships.dom().contains(table.keys()[i as int]));
            }
            let r = table.key_at(i);
            if !self.issued.contains(&r.source) || !self.issued.contains(&r.target) {
                return false;
            }
            i = i + 1;
        }
        proof {
            lemma_by_place(table, holds);
        }
        self.property_replacements_ok() && self.relationship_replacements_ok()
    }

    fn property_replacements_ok(&self) -> (r: bool)
        requires
            self.tables_ok(),
        ensures
            r == (forall|k: Seq<char>| #[trigger]
                self@.property_definitions.dom().contains(k) ==> match self@.property_definitions[k].definition.replacement_key {
                    Some(other) => self@.property_definitions.dom().contains(other),
                    None => true,
                }),
    {
        let table = &self.property_definitions;
        let ghost holds = |k: Seq<char>|
            match table@[k].definition.replacement_key {
                Some(other) => table@.dom().contains(other),
                None => true,
            };
        let mut i: usize = 0;
        while i < table.len()
            invariant
                table.wf(),
                table == &self.property_definitions,
                holds == (|k: Seq<char>|
                    match table@[k].definition.replacement_key {
                        Some(other) => table@.dom().contains(other),
                        None => true,
                    }),
                i <= table.keys().len(),
                forall|j: int| 0 <= j < i ==> holds(#[trigger] table.keys()[j]),
            decreases table.keys().len() - i,
        {
            proof {
                table.lemma_view();
                assert(self@.property_definitions.dom().contains(table.keys()[i as int]));
            }
            match &table.row_at(i).definition.replacement_key {
                None => {},
                Some(other) => if !table.contains(other) {
                    return false;
                },
            }
            i = i + 1;
        }
        proof {
            lemma_by_place(table, holds);
        }
        true
    }

    fn relationship_replacements_ok(&self) -> (r: bool)
        requires
            self.tables_ok(),
        ensures
            r == (forall|k: Seq<char>| #[trigger]
                self@.relationship_definitions.dom().contains(k) ==> match self@.relationship_definitions[k].definition.replacement_key {
                    Some(other) => self@.relationship_definitions.dom().contains(other),
                    None => true,
                }),
    {
        let table = &self.relationship_definitions;
        let ghost holds = |k: Seq<char>|
            match table@[k].definition.replacement_key {
                Some(other) => table@.dom().contains(other),
                None => true,
            };
        let mut i: usize = 0;
        while i < table.len()
            invariant
                table.wf(),
                table == &self.relationship_definitions,
                holds == (|k: Seq<char>|
                    match table@[k].definition.replacement_key {
                        Some(other) => table@.dom().contains(other),
                        None => true,
                    }),
                i <= table.keys().len(),
                forall|j: int| 0 <= j < i ==> holds(#[trigger] table.keys()[j]),
            decreases table.keys().len() - i,
        {
            proof {
                table.lemma_view();
                assert(self@.relationship_definitions.dom().contains(table.keys()[i as int]));
            }
            match &table.row_at(i).definition.replacement_key {
                None => {},
                Some(other) => if !table.contains(other) {
                    return false;
                },
            }
            i = i + 1;
        }
        proof {
            lemma_by_place(table, holds);
        }
        true
    }
}

} // verus!
