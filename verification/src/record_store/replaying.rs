//! What applying a frame makes of a recovery candidate, told of the rows that the frame brings.
use vstd::prelude::*;
use crate::api::{Relationship, RelationshipView};
use crate::error::ErrorView;
use crate::id::NodeId;
use crate::record_store::frames::{
    entries_applied, frame_result, nodes_applied, properties_applied, EntryView, FrameNodeView,
    FramePropertyView, FrameRelationship, FrameRelationshipView, FrameRow, FrameView,
};
use crate::record_store::model::{
    NodeRowView, PropertyDefinitionRow, PropertyDefinitionRowView, PropertyRowView, RecordModel,
    RelationshipDefinitionRow, RelationshipDefinitionRowView, RelationshipRow,
};
use crate::table::{TableKey, TableRow};
use crate::value::{value_fault, RealView, ValueView};

verus! {

/// Whether a revision is one that a row can have.
pub open spec fn is_revision(n: u64) -> bool {
    0 < n <= i64::MAX
}

/// Whether a key is one that a table takes: it does not begin with a NUL, and has a beginning.
pub open spec fn has_beginning(key: Seq<char>) -> bool {
    key.len() > 0 && key[0] != '\0'
}

/// Properties are applied one after the other. One more is taken exactly where its value is valid,
/// its key has a beginning and was not taken before, and its revision is one; it is then there with
/// the value it brings, of which only the real minus zero becomes zero. Where the value is refused, its
/// fault is the failure; any other failure is that of the database.
pub proof fn law_frame_properties_are_applied(
    properties: Seq<FramePropertyView>,
    p: FramePropertyView,
)
    ensures
        properties_applied(Seq::empty(), 0) == Ok::<Map<Seq<char>, PropertyRowView>, ErrorView>(
            Map::empty(),
        ),
        ({
            let longer = properties.push(p);
            let r = properties_applied(longer, longer.len());
            match properties_applied(properties, properties.len()) {
                Err(e) => r == Err::<Map<Seq<char>, PropertyRowView>, ErrorView>(e),
                Ok(rows) => {
                    let fits = has_beginning(p.key) && is_revision(p.modified_revision)
                        && !rows.dom().contains(p.key);
                    &&& r is Ok <==> value_fault(p.value) is None && fits
                    &&& value_fault(p.value) is Some ==> r->Err_0 == value_fault(p.value)->0
                    &&& value_fault(p.value) is None && !fits ==> r->Err_0 is Database
                    &&& r is Ok ==> {
                        let now = r->Ok_0;
                        &&& now.dom() == rows.dom().insert(p.key)
                        &&& forall|k: Seq<char>|
                            rows.dom().contains(k) ==> #[trigger] now[k] == rows[k]
                        &&& now[p.key].modified_revision == p.modified_revision
                        &&& match p.value {
                            ValueView::Real(x) => if x.bits == 0x8000_0000_0000_0000 {
                                now[p.key].value == ValueView::Real(
                                    RealView { bits: 0, text: "0.0"@ },
                                )
                            } else {
                                now[p.key].value == p.value
                            },
                            _ => now[p.key].value == p.value,
                        }
                    }
                },
            }
        }),
{
    let longer = properties.push(p);
    lemma_properties_alike(properties, p, properties.len());
    assert(longer[properties.len() as int] == p);
    match properties_applied(properties, properties.len()) {
        Ok(rows) => match properties_applied(longer, longer.len()) {
            Ok(now) => {
                assert(now.dom() =~= rows.dom().insert(p.key));
            },
            Err(_) => {},
        },
        Err(_) => {},
    }
}

proof fn lemma_properties_alike(properties: Seq<FramePropertyView>, p: FramePropertyView, n: nat)
    requires
        n <= properties.len(),
    ensures
        properties_applied(properties.push(p), n) == properties_applied(properties, n),
    decreases n,
{
    if n > 0 {
        lemma_properties_alike(properties, p, (n - 1) as nat);
        assert(properties.push(p)[n - 1] == properties[n - 1]);
    }
}

/// Nodes are applied one after the other. One that is gone is removed. One that comes is taken exactly
/// where its revisions are in order and its Properties are taken; it stands then under its own ID, in
/// place of the one that stood there, with its own state, revisions and Properties.
pub proof fn law_frame_nodes_are_applied(
    nodes: Map<NodeId, NodeRowView>,
    entries: Seq<EntryView<NodeId, FrameNodeView>>,
    e: EntryView<NodeId, FrameNodeView>,
)
    ensures
        ({
            let longer = entries.push(e);
            let r = nodes_applied(nodes, longer, longer.len());
            match nodes_applied(nodes, entries, entries.len()) {
                Err(fault) => r == Err::<Map<NodeId, NodeRowView>, ErrorView>(fault),
                Ok(before) => match e.row {
                    None => r is Ok && !r->Ok_0.dom().contains(e.key) && (forall|id: NodeId|
                        id != e.key ==> (#[trigger] r->Ok_0.dom().contains(id)
                            <==> before.dom().contains(id)) && (before.dom().contains(id)
                            ==> r->Ok_0[id] == before[id])),
                    Some(node) => {
                        let properties = properties_applied(node.properties, node.properties.len());
                        let dated = 0 < node.created_revision <= node.modified_revision
                            <= i64::MAX;
                        &&& r is Ok <==> dated && properties is Ok
                        &&& !dated ==> r->Err_0 is Database
                        &&& dated && properties is Err ==> r->Err_0 == properties->Err_0
                        &&& r is Ok ==> {
                            let now = r->Ok_0;
                            &&& now.dom() == before.dom().insert(node.id)
                            &&& now[node.id].lifecycle_state == node.lifecycle_state
                            &&& now[node.id].created_revision == node.created_revision
                            &&& now[node.id].modified_revision == node.modified_revision
                            &&& now[node.id].properties == properties->Ok_0
                            &&& forall|id: NodeId|
                                id != node.id && before.dom().contains(id) ==> #[trigger] now[id]
                                    == before[id]
                        }
                    },
                },
            }
        }),
{
    let longer = entries.push(e);
    lemma_nodes_alike(nodes, entries, e, entries.len());
    assert(longer[entries.len() as int] == e);
    match (nodes_applied(nodes, entries, entries.len()), e.row) {
        (Ok(before), Some(node)) => match nodes_applied(nodes, longer, longer.len()) {
            Ok(now) => {
                assert(now.dom() =~= before.dom().insert(node.id));
            },
            Err(_) => {},
        },
        _ => {},
    }
}

proof fn lemma_nodes_alike(
    nodes: Map<NodeId, NodeRowView>,
    entries: Seq<EntryView<NodeId, FrameNodeView>>,
    e: EntryView<NodeId, FrameNodeView>,
    n: nat,
)
    requires
        n <= entries.len(),
    ensures
        nodes_applied(nodes, entries.push(e), n) == nodes_applied(nodes, entries, n),
    decreases n,
{
    if n > 0 {
        lemma_nodes_alike(nodes, entries, e, (n - 1) as nat);
        assert(entries.push(e)[n - 1] == entries[n - 1]);
    }
}

proof fn lemma_entries_alike<K: TableKey, R: TableRow, F: FrameRow<K, R>>(
    rows: Map<K::V, R::V>,
    entries: Seq<EntryView<K::V, F::V>>,
    e: EntryView<K::V, F::V>,
    n: nat,
)
    requires
        n <= entries.len(),
    ensures
        entries_applied::<K, R, F>(rows, entries.push(e), n) == entries_applied::<K, R, F>(
            rows,
            entries,
            n,
        ),
    decreases n,
{
    if n > 0 {
        lemma_entries_alike::<K, R, F>(rows, entries, e, (n - 1) as nat);
        assert(entries.push(e)[n - 1] == entries[n - 1]);
    }
}

/// Relationships are applied one after the other: the one that an entry names goes, and one that comes
/// is taken exactly where its key has a beginning, its revisions are in order, and nothing stands in
/// its place.
pub proof fn law_frame_relationships_are_applied(
    rows: Map<RelationshipView, RelationshipRow>,
    entries: Seq<EntryView<RelationshipView, FrameRelationshipView>>,
    e: EntryView<RelationshipView, FrameRelationshipView>,
)
    ensures
        ({
            let longer = entries.push(e);
            let r = entries_applied::<Relationship, RelationshipRow, FrameRelationship>(
                rows,
                longer,
                longer.len(),
            );
            match entries_applied::<Relationship, RelationshipRow, FrameRelationship>(
                rows,
                entries,
                entries.len(),
            ) {
                None => r is None,
                Some(before) => match e.row {
                    None => r == Some(before.remove(e.key)),
                    Some(link) => {
                        let own = link.relationship;
                        &&& r is Some <==> has_beginning(own.key) && 0 < link.row.created_revision
                            <= link.row.modified_revision <= i64::MAX && (own == e.key
                            || !before.dom().contains(own))
                        &&& r is Some ==> {
                            let now = r->0;
                            &&& now.dom() == before.dom().remove(e.key).insert(own)
                            &&& now[own] == link.row
                            &&& forall|other: RelationshipView|
                                other != own && now.dom().contains(other) ==> #[trigger] now[other]
                                    == before[other]
                        }
                    },
                },
            }
        }),
{
    let longer = entries.push(e);
    lemma_entries_alike::<Relationship, RelationshipRow, FrameRelationship>(
        rows,
        entries,
        e,
        entries.len(),
    );
    assert(longer[entries.len() as int] == e);
    let was = entries_applied::<Relationship, RelationshipRow, FrameRelationship>(
        rows,
        entries,
        entries.len(),
    );
    let now = entries_applied::<Relationship, RelationshipRow, FrameRelationship>(
        rows,
        longer,
        longer.len(),
    );
    match e.row {
        Some(link) => {
            if was is Some && now is Some {
                assert(now->0.dom() =~= was->0.dom().remove(e.key).insert(link.relationship));
            }
        },
        None => {},
    }
}

/// Definitions are applied one after the other: the one that an entry names goes, and one that comes
/// is taken exactly where its key has a beginning, its version and its revision are ones, and nothing
/// stands in its place; an empty inverse label is then none.
pub proof fn law_frame_definitions_are_applied(
    p: (
        Map<Seq<char>, PropertyDefinitionRowView>,
        Seq<EntryView<Seq<char>, PropertyDefinitionRowView>>,
        EntryView<Seq<char>, PropertyDefinitionRowView>,
    ),
    d: (
        Map<Seq<char>, RelationshipDefinitionRowView>,
        Seq<EntryView<Seq<char>, RelationshipDefinitionRowView>>,
        EntryView<Seq<char>, RelationshipDefinitionRowView>,
    ),
)
    ensures
        ({
            let (rows, entries, e) = p;
            let r = entries_applied::<String, PropertyDefinitionRow, PropertyDefinitionRow>(
                rows,
                entries.push(e),
                entries.len() + 1,
            );
            match entries_applied::<String, PropertyDefinitionRow, PropertyDefinitionRow>(
                rows,
                entries,
                entries.len(),
            ) {
                None => r is None,
                Some(before) => match e.row {
                    None => r == Some(before.remove(e.key)),
                    Some(row) => {
                        let own = row.definition.key;
                        &&& r is Some <==> has_beginning(own) && is_revision(row.definition.version)
                            && is_revision(row.modified_revision) && (own == e.key
                            || !before.dom().contains(own))
                        &&& r is Some ==> r->0 == before.remove(e.key).insert(own, row)
                    },
                },
            }
        }),
        ({
            let (rows, entries, e) = d;
            let r = entries_applied::<String, RelationshipDefinitionRow, RelationshipDefinitionRow>(
                rows,
                entries.push(e),
                entries.len() + 1,
            );
            match entries_applied::<String, RelationshipDefinitionRow, RelationshipDefinitionRow>(
                rows,
                entries,
                entries.len(),
            ) {
                None => r is None,
                Some(before) => match e.row {
                    None => r == Some(before.remove(e.key)),
                    Some(row) => {
                        let own = row.definition.key;
                        &&& r is Some <==> has_beginning(own) && is_revision(row.definition.version)
                            && is_revision(row.modified_revision) && (own == e.key
                            || !before.dom().contains(own))
                        &&& r is Some ==> {
                            let now = r->0[own];
                            &&& r->0.remove(own) == before.remove(e.key).remove(own)
                            &&& r->0.dom().contains(own)
                            &&& now.modified_revision == row.modified_revision
                            &&& now.definition.key == own
                            &&& now.definition.forward_label == row.definition.forward_label
                            &&& now.definition.description == row.definition.description
                            &&& now.definition.state == row.definition.state
                            &&& now.definition.replacement_key == row.definition.replacement_key
                            &&& now.definition.origin == row.definition.origin
                            &&& now.definition.version == row.definition.version
                            &&& now.definition.inverse_label == if row.definition.inverse_label
                                is Some && row.definition.inverse_label->0.len() > 0 {
                                row.definition.inverse_label
                            } else {
                                None
                            }
                        }
                    },
                },
            }
        }),
{
    lemma_entries_alike::<String, PropertyDefinitionRow, PropertyDefinitionRow>(
        p.0,
        p.1,
        p.2,
        p.1.len(),
    );
    lemma_entries_alike::<String, RelationshipDefinitionRow, RelationshipDefinitionRow>(
        d.0,
        d.1,
        d.2,
        d.1.len(),
    );
    assert(p.1.push(p.2)[p.1.len() as int] == p.2);
    assert(d.1.push(d.2)[d.1.len() as int] == d.2);
    let r = entries_applied::<String, RelationshipDefinitionRow, RelationshipDefinitionRow>(
        d.0,
        d.1.push(d.2),
        d.1.len() + 1,
    );
    let was = entries_applied::<String, RelationshipDefinitionRow, RelationshipDefinitionRow>(
        d.0,
        d.1,
        d.1.len(),
    );
    match d.2.row {
        Some(row) => {
            if r is Some && was is Some {
                let own = row.definition.key;
                assert(r->0.remove(own) =~= was->0.remove(d.2.key).remove(own));
            }
        },
        None => {},
    }
}

/// A frame leads forward from where the candidate stands to where it says, and leaves no journal. The
/// tables are then what its rows make of them; the IDs that it names, and those of the Nodes it
/// brings, are issued beside those that were; the ends of every Relationship are issued.
pub proof fn law_frames_lead_forward(m: RecordModel, f: FrameView, n: RecordModel)
    requires
        frame_result(m, f) == Ok::<RecordModel, ErrorView>(n),
    ensures
        f.from_revision == m.revision,
        n.revision == f.target_revision,
        n.revision > m.revision,
        n.revision <= i64::MAX,
        n.journal.len() == 0,
        nodes_applied(m.nodes, f.nodes, f.nodes.len()) == Ok::<
            Map<NodeId, NodeRowView>,
            ErrorView,
        >(n.nodes),
        forall|id: NodeId| #[trigger]
            n.issued.contains(id) <==> m.issued.contains(id) || f.issued.contains(id) || exists|
                i: int,
            |
                0 <= i < f.nodes.len() && (#[trigger] f.nodes[i]).row is Some
                    && f.nodes[i].row->0.id == id,
        forall|r: RelationshipView| #[trigger]
            n.relationships.dom().contains(r) ==> n.issued.contains(r.source) && n.issued.contains(
                r.target,
            ),
        entries_applied::<Relationship, RelationshipRow, FrameRelationship>(
            m.relationships,
            f.relationships,
            f.relationships.len(),
        ) == Some(n.relationships),
        entries_applied::<String, PropertyDefinitionRow, PropertyDefinitionRow>(
            m.property_definitions,
            f.property_definitions,
            f.property_definitions.len(),
        ) == Some(n.property_definitions),
        entries_applied::<String, RelationshipDefinitionRow, RelationshipDefinitionRow>(
            m.relationship_definitions,
            f.relationship_definitions,
            f.relationship_definitions.len(),
        ) == Some(n.relationship_definitions),
{
}

/// A frame that does not begin where the candidate stands, or does not lead forward, is damaged.
pub proof fn law_frames_begin_where_the_store_stands(m: RecordModel, f: FrameView)
    requires
        f.from_revision != m.revision || f.target_revision <= f.from_revision,
    ensures
        frame_result(m, f) is Err,
        frame_result(m, f)->Err_0 is CorruptStore,
{
}

} // verus!
