//! What holds of the Record Store whatever is done to it.
use vstd::prelude::*;
use crate::api::{
    Mutation, NewPropertyDefinition, NewRelationshipDefinition, PropertyDefinitionUpdate,
    RelationshipDefinitionUpdate, RelationshipView,
};
use crate::error::ErrorView;
use crate::id::NodeId;
use crate::node::LifecycleState;
use crate::record_store::definitions::{
    deprecate_property_result, deprecate_relationship_result, kept_label, new_property_definition,
    new_relationship_definition, register_property_result, register_relationship_result,
    remove_property_result, remove_relationship_result, update_property_result,
    update_relationship_result,
};
use crate::record_store::keys::key_ok;
use crate::record_store::model::{empty_model, ChangeKind, ChangeView, PropertyRowView, RecordModel};
use crate::record_store::operations::{
    add_relationship_step, advance, batch_result, create_all_result, create_node_step,
    create_result, insert_all, insert_node, mutate, mutate_all, purge_node_step,
    remove_property_step, remove_relationship_step, reserve_all, set_property_step, set_state_step,
    touched,
};
use crate::record_store::projection::{
    concerns_issued, concerns_node, concerns_property_definition, concerns_relationship,
    concerns_relationship_definition, issued_in, nodes_in, property_definitions_in, readable,
    relationship_definitions_in, relationships_in,
};
use crate::table::lookup;
use crate::value::{kept_value, value_fault};

verus! {

/// Whether a Property can stand in a store at this revision: a valid key, a valid value as its
/// column keeps it, set by now.
pub open spec fn property_ok(key: Seq<char>, row: PropertyRowView, revision: u64) -> bool {
    key_ok(key) && value_fault(row.value) is None && kept_value(row.value) == row.value && 0
        < row.modified_revision <= revision
}

/// Whether a Node can stand in a store at this revision: its ID is issued, it was created and
/// changed by now, and its Properties can stand there.
pub open spec fn node_ok(m: RecordModel, id: NodeId) -> bool {
    &&& m.issued.contains(id)
    &&& 0 < m.nodes[id].created_revision <= m.nodes[id].modified_revision <= m.revision
    &&& forall|k: Seq<char>| #[trigger]
        m.nodes[id].properties.dom().contains(k) ==> property_ok(
            k,
            m.nodes[id].properties[k],
            m.revision,
        )
}

/// Whether a Relationship can stand in a store: a valid key, two issued ends, added by now.
pub open spec fn relationship_ok(m: RecordModel, r: RelationshipView) -> bool {
    &&& key_ok(r.key)
    &&& m.issued.contains(r.source)
    &&& m.issued.contains(r.target)
    &&& 0 < m.relationships[r].created_revision <= m.relationships[r].modified_revision
        <= m.revision
}

/// Whether a Property definition can stand in a store: under its own valid key, changed by now,
/// with a replacement that is there.
pub open spec fn property_definition_ok(m: RecordModel, key: Seq<char>) -> bool {
    let row = m.property_definitions[key];
    &&& key_ok(key)
    &&& row.definition.key == key
    &&& 0 < row.definition.version <= i64::MAX
    &&& 0 < row.modified_revision <= m.revision
    &&& match row.definition.replacement_key {
        Some(other) => m.property_definitions.dom().contains(other),
        None => true,
    }
}

/// Whether a Relationship definition can stand in a store.
pub open spec fn relationship_definition_ok(m: RecordModel, key: Seq<char>) -> bool {
    let row = m.relationship_definitions[key];
    &&& key_ok(key)
    &&& row.definition.key == key
    &&& row.definition.inverse_label == kept_label(row.definition.inverse_label)
    &&& 0 < row.definition.version <= i64::MAX
    &&& 0 < row.modified_revision <= m.revision
    &&& match row.definition.replacement_key {
        Some(other) => m.relationship_definitions.dom().contains(other),
        None => true,
    }
}

/// Whether every fact of a store can stand there.
pub open spec fn facts_ok(m: RecordModel) -> bool {
    &&& m.revision <= i64::MAX
    &&& m.property_definitions.dom().finite()
    &&& m.relationship_definitions.dom().finite()
    &&& forall|id: NodeId| #[trigger] m.nodes.dom().contains(id) ==> node_ok(m, id)
    &&& forall|r: RelationshipView| #[trigger]
        m.relationships.dom().contains(r) ==> relationship_ok(m, r)
    &&& forall|k: Seq<char>| #[trigger]
        m.property_definitions.dom().contains(k) ==> property_definition_ok(m, k)
    &&& forall|k: Seq<char>| #[trigger]
        m.relationship_definitions.dom().contains(k) ==> relationship_definition_ok(m, k)
}

/// Whether one journal entry stands before another.
pub open spec fn change_before(a: ChangeView, b: ChangeView) -> bool {
    a.revision < b.revision || (a.revision == b.revision && a.ordinal < b.ordinal)
}

/// Whether a journal is one of a store at this revision: in order, readable, of revisions so far.
pub open spec fn journal_ok(journal: Seq<ChangeView>, revision: u64) -> bool {
    &&& forall|i: int|
        0 <= i < journal.len() ==> 0 < (#[trigger] journal[i]).revision <= revision && readable(
            journal[i],
        )
    &&& forall|i: int, j: int|
        0 <= i < j < journal.len() ==> change_before(#[trigger] journal[i], #[trigger] journal[j])
}

/// Whether a store is one that operations can have made.
pub open spec fn consistent(m: RecordModel) -> bool {
    facts_ok(m) && journal_ok(m.journal, m.revision)
}

/// Whether everything that differs between two stores is concerned by these changes.
pub open spec fn covers(a: RecordModel, b: RecordModel, changes: Seq<ChangeView>) -> bool {
    &&& forall|id: NodeId| #[trigger]
        b.issued.contains(id) <==> a.issued.contains(id) || issued_in(changes).contains(id)
    &&& forall|id: NodeId|
        !nodes_in(changes).contains(id) ==> #[trigger] lookup(b.nodes, id) == lookup(a.nodes, id)
    &&& forall|r: RelationshipView|
        !relationships_in(changes).contains(r) ==> #[trigger] lookup(b.relationships, r) == lookup(
            a.relationships,
            r,
        )
    &&& forall|k: Seq<char>|
        !property_definitions_in(changes).contains(k) ==> #[trigger] lookup(
            b.property_definitions,
            k,
        ) == lookup(a.property_definitions, k)
    &&& forall|k: Seq<char>|
        !relationship_definitions_in(changes).contains(k) ==> #[trigger] lookup(
            b.relationship_definitions,
            k,
        ) == lookup(a.relationship_definitions, k)
}

/// Whether one store comes of another by one commit: the next revision, with every difference in
/// the journal.
pub open spec fn commits(a: RecordModel, b: RecordModel, new: Seq<ChangeView>) -> bool {
    &&& new.len() > 0
    &&& b.revision == a.revision + 1
    &&& b.journal == a.journal + new
    &&& forall|i: int|
        0 <= i < new.len() ==> (#[trigger] new[i]).revision == b.revision && new[i].ordinal == i
            && readable(new[i])
    &&& covers(a, b, new)
}

/// Whether a change within a batch keeps everything in order and enters itself in the journal.
spec fn steps(a: RecordModel, b: RecordModel, ordinal: u64) -> bool {
    &&& facts_ok(b)
    &&& b.revision == a.revision
    &&& b.journal.len() == a.journal.len() + 1
    &&& b.journal == a.journal.push(b.journal.last())
    &&& b.journal.last().revision == a.revision
    &&& b.journal.last().ordinal == ordinal
    &&& readable(b.journal.last())
    &&& covers(a, b, seq![b.journal.last()])
}

proof fn lemma_single(c: ChangeView)
    ensures
        forall|id: NodeId| #[trigger] nodes_in(seq![c]).contains(id) <==> concerns_node(c, id),
        forall|id: NodeId| #[trigger] issued_in(seq![c]).contains(id) <==> concerns_issued(c, id),
        forall|r: RelationshipView| #[trigger]
            relationships_in(seq![c]).contains(r) <==> concerns_relationship(c, r),
        forall|k: Seq<char>| #[trigger]
            property_definitions_in(seq![c]).contains(k) <==> concerns_property_definition(c, k),
        forall|k: Seq<char>| #[trigger]
            relationship_definitions_in(seq![c]).contains(k) <==> concerns_relationship_definition(
                c,
                k,
            ),
{
    let s = seq![c];
    assert(s[0] == c);
}

proof fn lemma_concat(x: Seq<ChangeView>, y: Seq<ChangeView>)
    ensures
        forall|id: NodeId| #[trigger]
            nodes_in(x + y).contains(id) <==> nodes_in(x).contains(id) || nodes_in(y).contains(id),
        forall|id: NodeId| #[trigger]
            issued_in(x + y).contains(id) <==> issued_in(x).contains(id) || issued_in(y).contains(
                id,
            ),
        forall|r: RelationshipView| #[trigger]
            relationships_in(x + y).contains(r) <==> relationships_in(x).contains(r)
                || relationships_in(y).contains(r),
        forall|k: Seq<char>| #[trigger]
            property_definitions_in(x + y).contains(k) <==> property_definitions_in(x).contains(k)
                || property_definitions_in(y).contains(k),
        forall|k: Seq<char>| #[trigger]
            relationship_definitions_in(x + y).contains(k) <==> relationship_definitions_in(
                x,
            ).contains(k) || relationship_definitions_in(y).contains(k),
{
    let z = x + y;
    assert forall|i: int| 0 <= i < x.len() implies #[trigger] x[i] == z[i] by {}
    assert forall|i: int| 0 <= i < y.len() implies #[trigger] y[i] == z[x.len() + i] by {}
    assert forall|i: int| x.len() <= i < z.len() implies #[trigger] z[i] == y[i - x.len()] by {}
}

/// What two runs of changes cover, one after the other, they cover together.
pub(crate) proof fn lemma_covers_chain(
    a: RecordModel,
    b: RecordModel,
    c: RecordModel,
    x: Seq<ChangeView>,
    y: Seq<ChangeView>,
)
    requires
        covers(a, b, x),
        covers(b, c, y),
    ensures
        covers(a, c, x + y),
{
    lemma_concat(x, y);
    assert forall|id: NodeId| #[trigger]
        c.issued.contains(id) <==> a.issued.contains(id) || issued_in(x + y).contains(id) by {
        assert(b.issued.contains(id) <==> a.issued.contains(id) || issued_in(x).contains(id));
    }
    assert forall|id: NodeId| !nodes_in(x + y).contains(id) implies #[trigger] lookup(c.nodes, id)
        == lookup(a.nodes, id) by {
        assert(lookup(b.nodes, id) == lookup(a.nodes, id));
    }
    assert forall|r: RelationshipView|
        !relationships_in(x + y).contains(r) implies #[trigger] lookup(c.relationships, r)
        == lookup(a.relationships, r) by {
        assert(lookup(b.relationships, r) == lookup(a.relationships, r));
    }
    assert forall|k: Seq<char>|
        !property_definitions_in(x + y).contains(k) implies #[trigger] lookup(
        c.property_definitions,
        k,
    ) == lookup(a.property_definitions, k) by {
        assert(lookup(b.property_definitions, k) == lookup(a.property_definitions, k));
    }
    assert forall|k: Seq<char>|
        !relationship_definitions_in(x + y).contains(k) implies #[trigger] lookup(
        c.relationship_definitions,
        k,
    ) == lookup(a.relationship_definitions, k) by {
        assert(lookup(b.relationship_definitions, k) == lookup(a.relationship_definitions, k));
    }
}

proof fn lemma_nothing_differs(a: RecordModel, b: RecordModel)
    requires
        a.issued == b.issued,
        a.nodes == b.nodes,
        a.relationships == b.relationships,
        a.property_definitions == b.property_definitions,
        a.relationship_definitions == b.relationship_definitions,
    ensures
        covers(a, b, Seq::empty()),
{
    assert forall|id: NodeId| !issued_in(Seq::empty()).contains(id) by {}
}

proof fn lemma_create_step(a: RecordModel, b: RecordModel, ordinal: u64, id: NodeId)
    requires
        facts_ok(a),
        a.revision > 0,
        create_node_step(a, ordinal, id) == Ok::<RecordModel, ErrorView>(b),
    ensures
        steps(a, b, ordinal),
{
    lemma_single(b.journal.last());
    assert forall|x: NodeId| #[trigger] b.nodes.dom().contains(x) implies node_ok(b, x) by {
        if x != id {
            assert(a.nodes.dom().contains(x));
        }
    }
    assert forall|r: RelationshipView| #[trigger]
        b.relationships.dom().contains(r) implies relationship_ok(b, r) by {
        assert(a.relationships.dom().contains(r));
    }
    assert forall|k: Seq<char>| #[trigger]
        b.property_definitions.dom().contains(k) implies property_definition_ok(b, k) by {
        assert(a.property_definitions.dom().contains(k));
    }
    assert forall|k: Seq<char>| #[trigger]
        b.relationship_definitions.dom().contains(k) implies relationship_definition_ok(b, k) by {
        assert(a.relationship_definitions.dom().contains(k));
    }
}

proof fn lemma_set_property_step(
    a: RecordModel,
    b: RecordModel,
    ordinal: u64,
    id: NodeId,
    key: Seq<char>,
    value: crate::value::ValueView,
)
    requires
        facts_ok(a),
        a.revision > 0,
        set_property_step(a, ordinal, id, key, value) == Ok::<RecordModel, ErrorView>(b),
    ensures
        steps(a, b, ordinal),
{
    lemma_single(b.journal.last());
    assert(a.nodes.dom().contains(id));
    assert forall|x: NodeId| #[trigger] b.nodes.dom().contains(x) implies node_ok(b, x) by {
        assert(a.nodes.dom().contains(x));
        if x == id {
            assert forall|k: Seq<char>| #[trigger]
                b.nodes[x].properties.dom().contains(k) implies property_ok(
                k,
                b.nodes[x].properties[k],
                b.revision,
            ) by {
                if k != key {
                    assert(a.nodes[x].properties.dom().contains(k));
                }
            }
        }
    }
    lemma_other_facts(a, b);
}

proof fn lemma_remove_property_step(
    a: RecordModel,
    b: RecordModel,
    ordinal: u64,
    id: NodeId,
    key: Seq<char>,
)
    requires
        facts_ok(a),
        a.revision > 0,
        remove_property_step(a, ordinal, id, key) == Ok::<RecordModel, ErrorView>(b),
    ensures
        steps(a, b, ordinal),
{
    lemma_single(b.journal.last());
    assert(a.nodes.dom().contains(id));
    assert forall|x: NodeId| #[trigger] b.nodes.dom().contains(x) implies node_ok(b, x) by {
        assert(a.nodes.dom().contains(x));
        if x == id {
            assert forall|k: Seq<char>| #[trigger]
                b.nodes[x].properties.dom().contains(k) implies property_ok(
                k,
                b.nodes[x].properties[k],
                b.revision,
            ) by {
                assert(a.nodes[x].properties.dom().contains(k));
            }
        }
    }
    lemma_other_facts(a, b);
}

/// Relationships and definitions that did not change can stand where they could before.
proof fn lemma_other_facts(a: RecordModel, b: RecordModel)
    requires
        facts_ok(a),
        b.revision >= a.revision,
        forall|id: NodeId| a.issued.contains(id) ==> #[trigger] b.issued.contains(id),
        b.relationships == a.relationships,
        b.property_definitions == a.property_definitions,
        b.relationship_definitions == a.relationship_definitions,
    ensures
        forall|r: RelationshipView| #[trigger]
            b.relationships.dom().contains(r) ==> relationship_ok(b, r),
        forall|k: Seq<char>| #[trigger]
            b.property_definitions.dom().contains(k) ==> property_definition_ok(b, k),
        forall|k: Seq<char>| #[trigger]
            b.relationship_definitions.dom().contains(k) ==> relationship_definition_ok(b, k),
{
    assert forall|r: RelationshipView| #[trigger]
        b.relationships.dom().contains(r) implies relationship_ok(b, r) by {
        assert(a.relationships.dom().contains(r));
    }
    assert forall|k: Seq<char>| #[trigger]
        b.property_definitions.dom().contains(k) implies property_definition_ok(b, k) by {
        assert(a.property_definitions.dom().contains(k));
    }
    assert forall|k: Seq<char>| #[trigger]
        b.relationship_definitions.dom().contains(k) implies relationship_definition_ok(b, k) by {
        assert(a.relationship_definitions.dom().contains(k));
    }
}

/// Nodes that did not change can stand where they could before.
proof fn lemma_same_nodes(a: RecordModel, b: RecordModel)
    requires
        facts_ok(a),
        b.revision >= a.revision,
        forall|id: NodeId| a.issued.contains(id) ==> #[trigger] b.issued.contains(id),
        b.nodes == a.nodes,
    ensures
        forall|id: NodeId| #[trigger] b.nodes.dom().contains(id) ==> node_ok(b, id),
{
    assert forall|id: NodeId| #[trigger] b.nodes.dom().contains(id) implies node_ok(b, id) by {
        assert(a.nodes.dom().contains(id));
    }
}

/// Relationships that did not change can stand where they could before.
proof fn lemma_same_relationships(a: RecordModel, b: RecordModel)
    requires
        facts_ok(a),
        b.revision >= a.revision,
        forall|id: NodeId| a.issued.contains(id) ==> #[trigger] b.issued.contains(id),
        b.relationships == a.relationships,
    ensures
        forall|r: RelationshipView| #[trigger]
            b.relationships.dom().contains(r) ==> relationship_ok(b, r),
{
    assert forall|r: RelationshipView| #[trigger]
        b.relationships.dom().contains(r) implies relationship_ok(b, r) by {
        assert(a.relationships.dom().contains(r));
    }
}

proof fn lemma_touched_nodes(a: RecordModel, b: RecordModel, r: RelationshipView)
    requires
        facts_ok(a),
        a.revision > 0,
        b.revision == a.revision,
        b.issued == a.issued,
        b.nodes == touched(touched(a.nodes, r.source, a.revision), r.target, a.revision),
    ensures
        forall|id: NodeId| #[trigger] b.nodes.dom().contains(id) ==> node_ok(b, id),
        forall|id: NodeId|
            id != r.source && id != r.target ==> #[trigger] lookup(b.nodes, id) == lookup(
                a.nodes,
                id,
            ),
{
    assert forall|id: NodeId| #[trigger] b.nodes.dom().contains(id) implies node_ok(b, id) by {
        assert(a.nodes.dom().contains(id));
        assert(node_ok(a, id));
        assert(b.nodes[id].properties == a.nodes[id].properties);
    }
}

proof fn lemma_add_relationship_step(
    a: RecordModel,
    b: RecordModel,
    ordinal: u64,
    r: RelationshipView,
)
    requires
        facts_ok(a),
        a.revision > 0,
        add_relationship_step(a, ordinal, r) == Ok::<RecordModel, ErrorView>(b),
    ensures
        steps(a, b, ordinal),
{
    lemma_single(b.journal.last());
    lemma_touched_nodes(a, b, r);
    assert(a.nodes.dom().contains(r.source) && a.nodes.dom().contains(r.target));
    assert forall|x: RelationshipView| #[trigger]
        b.relationships.dom().contains(x) implies relationship_ok(b, x) by {
        if x != r {
            assert(a.relationships.dom().contains(x));
        }
    }
    assert forall|k: Seq<char>| #[trigger]
        b.property_definitions.dom().contains(k) implies property_definition_ok(b, k) by {
        assert(a.property_definitions.dom().contains(k));
    }
    assert forall|k: Seq<char>| #[trigger]
        b.relationship_definitions.dom().contains(k) implies relationship_definition_ok(b, k) by {
        assert(a.relationship_definitions.dom().contains(k));
    }
}

proof fn lemma_remove_relationship_step(
    a: RecordModel,
    b: RecordModel,
    ordinal: u64,
    r: RelationshipView,
)
    requires
        facts_ok(a),
        a.revision > 0,
        remove_relationship_step(a, ordinal, r) == Ok::<RecordModel, ErrorView>(b),
    ensures
        steps(a, b, ordinal),
{
    lemma_single(b.journal.last());
    lemma_touched_nodes(a, b, r);
    assert forall|x: RelationshipView| #[trigger]
        b.relationships.dom().contains(x) implies relationship_ok(b, x) by {
        assert(a.relationships.dom().contains(x));
    }
    assert forall|k: Seq<char>| #[trigger]
        b.property_definitions.dom().contains(k) implies property_definition_ok(b, k) by {
        assert(a.property_definitions.dom().contains(k));
    }
    assert forall|k: Seq<char>| #[trigger]
        b.relationship_definitions.dom().contains(k) implies relationship_definition_ok(b, k) by {
        assert(a.relationship_definitions.dom().contains(k));
    }
}

proof fn lemma_set_state_step(
    a: RecordModel,
    b: RecordModel,
    ordinal: u64,
    id: NodeId,
    from: LifecycleState,
    to: LifecycleState,
    kind: ChangeKind,
)
    requires
        facts_ok(a),
        a.revision > 0,
        kind is NodeTombstoned || kind is NodeRestored,
        set_state_step(a, ordinal, id, from, to, kind) == Ok::<RecordModel, ErrorView>(b),
    ensures
        steps(a, b, ordinal),
{
    lemma_single(b.journal.last());
    assert(a.nodes.dom().contains(id));
    assert forall|x: NodeId| #[trigger] b.nodes.dom().contains(x) implies node_ok(b, x) by {
        assert(a.nodes.dom().contains(x));
        assert(b.nodes[x].properties == a.nodes[x].properties);
    }
    lemma_other_facts(a, b);
}

proof fn lemma_purge_step(a: RecordModel, b: RecordModel, ordinal: u64, id: NodeId)
    requires
        facts_ok(a),
        a.revision > 0,
        purge_node_step(a, ordinal, id) == Ok::<RecordModel, ErrorView>(b),
    ensures
        steps(a, b, ordinal),
{
    lemma_single(b.journal.last());
    assert(a.nodes.dom().contains(id));
    assert forall|x: NodeId| #[trigger] b.nodes.dom().contains(x) implies node_ok(b, x) by {
        assert(a.nodes.dom().contains(x));
    }
    lemma_other_facts(a, b);
}

/// Every change of a batch keeps everything in order and enters itself in the journal.
proof fn lemma_mutate_steps(a: RecordModel, b: RecordModel, ordinal: u64, mutation: Mutation)
    requires
        facts_ok(a),
        a.revision > 0,
        mutate(a, ordinal, mutation) == Ok::<RecordModel, ErrorView>(b),
    ensures
        steps(a, b, ordinal),
{
    reveal(mutate);
    match mutation {
        Mutation::CreateNode { node_id } => lemma_create_step(a, b, ordinal, node_id),
        Mutation::SetProperty { node_id, key, value } => lemma_set_property_step(
            a,
            b,
            ordinal,
            node_id,
            key@,
            value@,
        ),
        Mutation::RemoveProperty { node_id, key } => lemma_remove_property_step(
            a,
            b,
            ordinal,
            node_id,
            key@,
        ),
        Mutation::AddRelationship { source, key, target } => lemma_add_relationship_step(
            a,
            b,
            ordinal,
            RelationshipView { source, key: key@, target },
        ),
        Mutation::RemoveRelationship { source, key, target } => lemma_remove_relationship_step(
            a,
            b,
            ordinal,
            RelationshipView { source, key: key@, target },
        ),
        Mutation::TombstoneNode { node_id } => lemma_set_state_step(
            a,
            b,
            ordinal,
            node_id,
            LifecycleState::Active,
            LifecycleState::Tombstoned,
            ChangeKind::NodeTombstoned,
        ),
        Mutation::RestoreNode { node_id } => lemma_set_state_step(
            a,
            b,
            ordinal,
            node_id,
            LifecycleState::Tombstoned,
            LifecycleState::Active,
            ChangeKind::NodeRestored,
        ),
        Mutation::PurgeNode { node_id } => lemma_purge_step(a, b, ordinal, node_id),
    }
}

/// Whether the run of changes from one store to another, all at one revision, is in the journal.
spec fn runs(a: RecordModel, b: RecordModel, new: Seq<ChangeView>) -> bool {
    &&& facts_ok(b)
    &&& b.revision == a.revision
    &&& b.journal == a.journal + new
    &&& forall|i: int|
        0 <= i < new.len() ==> (#[trigger] new[i]).revision == a.revision && new[i].ordinal == i
            && readable(new[i])
    &&& covers(a, b, new)
}

proof fn lemma_runs_step(
    a: RecordModel,
    b: RecordModel,
    c: RecordModel,
    new: Seq<ChangeView>,
)
    requires
        runs(a, b, new),
        new.len() <= u64::MAX,
        steps(b, c, new.len() as u64),
    ensures
        runs(a, c, new.push(c.journal.last())),
{
    let change = c.journal.last();
    lemma_covers_chain(a, b, c, new, seq![change]);
    assert(new + seq![change] =~= new.push(change));
    assert(c.journal =~= a.journal + new.push(change));
}

proof fn lemma_runs_begin(a: RecordModel)
    requires
        facts_ok(a),
    ensures
        runs(a, a, Seq::empty()),
{
    lemma_nothing_differs(a, a);
    assert(a.journal + Seq::<ChangeView>::empty() =~= a.journal);
}

proof fn lemma_mutate_all_runs(
    a: RecordModel,
    b: RecordModel,
    mutations: Seq<Mutation>,
    n: nat,
) -> (new: Seq<ChangeView>)
    requires
        facts_ok(a),
        a.revision > 0,
        n <= mutations.len() <= u64::MAX,
        mutate_all(a, mutations, n) == Ok::<RecordModel, ErrorView>(b),
    ensures
        new.len() == n,
        runs(a, b, new),
    decreases n,
{
    if n == 0 {
        lemma_runs_begin(a);
        Seq::empty()
    } else {
        let k = mutate_all(a, mutations, (n - 1) as nat)->Ok_0;
        let before = lemma_mutate_all_runs(a, k, mutations, (n - 1) as nat);
        lemma_mutate_steps(k, b, (n - 1) as u64, mutations[n - 1]);
        lemma_runs_step(a, k, b, before);
        before.push(b.journal.last())
    }
}

proof fn lemma_insert_all_runs(a: RecordModel, ids: Seq<NodeId>, n: nat) -> (new: Seq<ChangeView>)
    requires
        a.revision > 0,
        n <= ids.len() <= u64::MAX,
        facts_ok(a),
        forall|i: int| 0 <= i < ids.len() ==> a.issued.contains(#[trigger] ids[i]),
    ensures
        new.len() == n,
        facts_ok(insert_all(a, ids, n)),
        insert_all(a, ids, n).revision == a.revision,
        insert_all(a, ids, n).issued == a.issued,
        insert_all(a, ids, n).relationships == a.relationships,
        insert_all(a, ids, n).property_definitions == a.property_definitions,
        insert_all(a, ids, n).relationship_definitions == a.relationship_definitions,
        insert_all(a, ids, n).journal == a.journal + new,
        forall|i: int|
            0 <= i < new.len() ==> (#[trigger] new[i]).revision == a.revision && new[i].ordinal == i
                && readable(new[i]) && new[i].kind is NodeCreated && new[i].node_id == Some(ids[i]),
        forall|id: NodeId|
            !(exists|i: int| 0 <= i < n && #[trigger] ids[i] == id) ==> #[trigger] lookup(
                insert_all(a, ids, n).nodes,
                id,
            ) == lookup(a.nodes, id),
    decreases n,
{
    if n == 0 {
        assert(a.journal + Seq::<ChangeView>::empty() =~= a.journal);
        Seq::empty()
    } else {
        let before = lemma_insert_all_runs(a, ids, (n - 1) as nat);
        let k = insert_all(a, ids, (n - 1) as nat);
        let b = insert_all(a, ids, n);
        let id = ids[n - 1];
        assert(b == insert_node(k, (n - 1) as u64, id));
        let new = before.push(b.journal.last());
        assert(b.journal =~= a.journal + new);
        assert forall|x: NodeId| #[trigger] b.nodes.dom().contains(x) implies node_ok(b, x) by {
            if x != id {
                assert(k.nodes.dom().contains(x));
            }
        }
        lemma_other_facts(k, b);
        assert forall|x: NodeId|
            !(exists|i: int| 0 <= i < n && #[trigger] ids[i] == x) implies #[trigger] lookup(
            b.nodes,
            x,
        ) == lookup(a.nodes, x) by {
            assert(ids[n - 1] != x);
            assert(!(exists|i: int| 0 <= i < n - 1 && #[trigger] ids[i] == x));
            assert(lookup(k.nodes, x) == lookup(a.nodes, x));
        }
        new
    }
}

proof fn lemma_reserved(issued: Set<NodeId>, ids: Seq<NodeId>, n: nat, now: Set<NodeId>)
    requires
        n <= ids.len(),
        reserve_all(issued, ids, n) == Ok::<Set<NodeId>, ErrorView>(now),
    ensures
        forall|id: NodeId| #[trigger]
            now.contains(id) <==> issued.contains(id) || exists|i: int|
                0 <= i < n && #[trigger] ids[i] == id,
    decreases n,
{
    if n > 0 {
        let was = reserve_all(issued, ids, (n - 1) as nat)->Ok_0;
        lemma_reserved(issued, ids, (n - 1) as nat, was);
        assert forall|id: NodeId| #[trigger]
            now.contains(id) <==> issued.contains(id) || exists|i: int|
                0 <= i < n && #[trigger] ids[i] == id by {
            assert(ids[n - 1] == ids[n - 1]);
            if was.contains(id) && !issued.contains(id) {
                let i = choose|i: int| 0 <= i < n - 1 && #[trigger] ids[i] == id;
                assert(ids[i] == id);
            }
            if exists|i: int| 0 <= i < n && #[trigger] ids[i] == id {
                let i = choose|i: int| 0 <= i < n && #[trigger] ids[i] == id;
                if i < n - 1 {
                    assert(ids[i] == id);
                    assert(was.contains(id));
                }
            }
        }
    }
}

/// The next revision of a consistent store has the same facts, and they can stand there.
proof fn lemma_advance(m: RecordModel, next: RecordModel)
    requires
        facts_ok(m),
        advance(m) == Ok::<RecordModel, ErrorView>(next),
    ensures
        facts_ok(next),
        next.revision == m.revision + 1,
        covers(m, next, Seq::empty()),
{
    lemma_nothing_differs(m, next);
    lemma_same_nodes(m, next);
    lemma_other_facts(m, next);
}

/// A run of changes at the next revision is a commit, and keeps the store consistent.
proof fn lemma_run_commits(
    m: RecordModel,
    next: RecordModel,
    b: RecordModel,
    new: Seq<ChangeView>,
)
    requires
        consistent(m),
        advance(m) == Ok::<RecordModel, ErrorView>(next),
        runs(next, b, new),
        new.len() > 0,
    ensures
        consistent(b),
        commits(m, b, new),
{
    lemma_advance(m, next);
    lemma_covers_chain(m, next, b, Seq::empty(), new);
    assert(Seq::<ChangeView>::empty() + new =~= new);
    assert forall|i: int, j: int| 0 <= i < j < b.journal.len() implies change_before(
        #[trigger] b.journal[i],
        #[trigger] b.journal[j],
    ) by {
        let n = m.journal.len();
        if j < n {
            assert(change_before(m.journal[i], m.journal[j]));
        } else if i < n {
            assert(m.journal[i].revision <= m.revision);
            assert(b.journal[j] == new[j - n]);
        } else {
            assert(b.journal[i] == new[i - n] && b.journal[j] == new[j - n]);
        }
    }
    assert forall|i: int| 0 <= i < b.journal.len() implies 0 < (#[trigger] b.journal[i]).revision
        <= b.revision && readable(b.journal[i]) by {
        let n = m.journal.len();
        if i < n {
            assert(b.journal[i] == m.journal[i]);
        } else {
            assert(b.journal[i] == new[i - n]);
        }
    }
}

/// A store without facts is consistent.
pub proof fn law_empty_is_consistent()
    ensures
        consistent(empty_model()),
{
}

/// A batch that succeeds makes exactly one revision, keeps the store consistent, and enters each
/// of its changes in the journal, so that the journal tells everything that differs.
pub proof fn law_batch_commits(m: RecordModel, mutations: Seq<Mutation>, n: RecordModel) -> (new:
    Seq<ChangeView>)
    requires
        consistent(m),
        mutations.len() <= u64::MAX,
        batch_result(m, mutations) == Ok::<RecordModel, ErrorView>(n),
    ensures
        consistent(n),
        commits(m, n, new),
        new.len() == mutations.len(),
{
    let next = advance(m)->Ok_0;
    lemma_advance(m, next);
    let new = lemma_mutate_all_runs(next, n, mutations, mutations.len());
    lemma_run_commits(m, next, n, new);
    new
}

/// Creating a Node makes exactly one revision, keeps the store consistent, and is in the journal.
pub proof fn law_create_commits(m: RecordModel, id: NodeId, n: RecordModel) -> (new: Seq<
    ChangeView,
>)
    requires
        consistent(m),
        create_result(m, id) == Ok::<RecordModel, ErrorView>(n),
    ensures
        consistent(n),
        commits(m, n, new),
        new.len() == 1,
{
    let next = advance(m)->Ok_0;
    lemma_advance(m, next);
    lemma_create_step(next, n, 0, id);
    lemma_runs_begin(next);
    let none = Seq::<ChangeView>::empty();
    lemma_runs_step(next, next, n, none);
    let new = none.push(n.journal.last());
    lemma_run_commits(m, next, n, new);
    new
}

/// Creating several Nodes makes exactly one revision, keeps the store consistent, and is in the
/// journal.
pub proof fn law_create_all_commits(m: RecordModel, ids: Seq<NodeId>, n: RecordModel) -> (new: Seq<
    ChangeView,
>)
    requires
        consistent(m),
        ids.len() <= u64::MAX,
        create_all_result(m, ids) == Ok::<RecordModel, ErrorView>(n),
    ensures
        consistent(n),
        commits(m, n, new),
        new.len() == ids.len(),
{
    let next = advance(m)->Ok_0;
    lemma_advance(m, next);
    let issued = reserve_all(m.issued, ids, ids.len())->Ok_0;
    lemma_reserved(m.issued, ids, ids.len(), issued);
    let begun = RecordModel { issued, ..next };
    assert(facts_ok(begun)) by {
        lemma_same_nodes(next, begun);
        lemma_other_facts(next, begun);
    }
    assert forall|i: int| 0 <= i < ids.len() implies begun.issued.contains(#[trigger] ids[i]) by {}
    let new = lemma_insert_all_runs(begun, ids, ids.len());
    assert forall|id: NodeId| issued_in(new).contains(id) <==> exists|i: int|
        0 <= i < ids.len() && #[trigger] ids[i] == id by {
        if issued_in(new).contains(id) {
            let i = choose|i: int| 0 <= i < new.len() && concerns_issued(#[trigger] new[i], id);
            assert(ids[i] == id);
        }
        if exists|i: int| 0 <= i < ids.len() && #[trigger] ids[i] == id {
            let i = choose|i: int| 0 <= i < ids.len() && #[trigger] ids[i] == id;
            assert(concerns_issued(new[i], id));
        }
    }
    assert forall|id: NodeId| nodes_in(new).contains(id) <==> exists|i: int|
        0 <= i < ids.len() && #[trigger] ids[i] == id by {
        if nodes_in(new).contains(id) {
            let i = choose|i: int| 0 <= i < new.len() && concerns_node(#[trigger] new[i], id);
            assert(ids[i] == id);
        }
        if exists|i: int| 0 <= i < ids.len() && #[trigger] ids[i] == id {
            let i = choose|i: int| 0 <= i < ids.len() && #[trigger] ids[i] == id;
            assert(concerns_node(new[i], id));
        }
    }
    assert(covers(next, n, new));
    assert(runs(next, n, new));
    lemma_run_commits(m, next, n, new);
    new
}

/// Setting a Property definition that can stand is a commit.
proof fn lemma_put_property(
    m: RecordModel,
    next: RecordModel,
    n: RecordModel,
    definition: crate::api::PropertyDefinitionView,
    kind: ChangeKind,
    replacement: Option<Seq<char>>,
) -> (new: Seq<ChangeView>)
    requires
        consistent(m),
        advance(m) == Ok::<RecordModel, ErrorView>(next),
        crate::record_store::projection::is_property_definition_change(kind),
        key_ok(definition.key),
        0 < definition.version <= i64::MAX,
        match definition.replacement_key {
            Some(other) => m.property_definitions.dom().contains(other),
            None => true,
        },
        n == crate::record_store::definitions::with_property_definition(
            next,
            definition,
            kind,
            replacement,
        ),
    ensures
        consistent(n),
        commits(m, n, new),
        new.len() == 1,
        n.nodes == m.nodes,
        n.relationships == m.relationships,
        n.issued == m.issued,
{
    lemma_advance(m, next);
    lemma_runs_begin(next);
    lemma_single(n.journal.last());
    assert forall|k: Seq<char>| #[trigger]
        n.property_definitions.dom().contains(k) implies property_definition_ok(n, k) by {
        if k != definition.key {
            assert(next.property_definitions.dom().contains(k));
        }
    }
    assert forall|k: Seq<char>| #[trigger]
        n.relationship_definitions.dom().contains(k) implies relationship_definition_ok(n, k) by {
        assert(next.relationship_definitions.dom().contains(k));
    }
    lemma_same_nodes(next, n);
    lemma_same_relationships(next, n);
    assert(steps(next, n, 0));
    let none = Seq::<ChangeView>::empty();
    lemma_runs_step(next, next, n, none);
    let new = none.push(n.journal.last());
    lemma_run_commits(m, next, n, new);
    new
}

/// Registering a Property definition makes exactly one revision, keeps the store consistent, is in
/// the journal, and leaves every fact as it was.
pub proof fn law_register_property_commits(
    m: RecordModel,
    input: NewPropertyDefinition,
    n: RecordModel,
) -> (new: Seq<ChangeView>)
    requires
        consistent(m),
        register_property_result(m, new_property_definition(input)) == Ok::<RecordModel, ErrorView>(n),
    ensures
        consistent(n),
        commits(m, n, new),
        n.nodes == m.nodes,
        n.relationships == m.relationships,
        n.issued == m.issued,
{
    lemma_put_property(
        m,
        advance(m)->Ok_0,
        n,
        crate::record_store::definitions::kept_property_definition(new_property_definition(input)),
        ChangeKind::PropertyDefinitionRegistered,
        None,
    )
}

/// Updating a Property definition makes exactly one revision, keeps the store consistent, is in the
/// journal, and leaves every fact as it was.
pub proof fn law_update_property_commits(
    m: RecordModel,
    key: Seq<char>,
    update: PropertyDefinitionUpdate,
    n: RecordModel,
) -> (new: Seq<ChangeView>)
    requires
        consistent(m),
        update_property_result(m, key, update) == Ok::<RecordModel, ErrorView>(n),
    ensures
        consistent(n),
        commits(m, n, new),
        n.nodes == m.nodes,
        n.relationships == m.relationships,
        n.issued == m.issued,
{
    assert(m.property_definitions.dom().contains(key));
    lemma_put_property(
        m,
        advance(m)->Ok_0,
        n,
        crate::record_store::definitions::updated_property(m, key, update),
        ChangeKind::PropertyDefinitionUpdated,
        None,
    )
}

/// Deprecating a Property definition makes exactly one revision, keeps the store consistent, is in
/// the journal, and leaves every fact as it was.
pub proof fn law_deprecate_property_commits(
    m: RecordModel,
    key: Seq<char>,
    replacement: Option<Seq<char>>,
    n: RecordModel,
) -> (new: Seq<ChangeView>)
    requires
        consistent(m),
        deprecate_property_result(m, key, replacement) == Ok::<RecordModel, ErrorView>(n),
    ensures
        consistent(n),
        commits(m, n, new),
        n.nodes == m.nodes,
        n.relationships == m.relationships,
        n.issued == m.issued,
{
    assert(m.property_definitions.dom().contains(key));
    lemma_put_property(
        m,
        advance(m)->Ok_0,
        n,
        crate::record_store::definitions::deprecated_property(m, key, replacement),
        ChangeKind::PropertyDefinitionDeprecated,
        replacement,
    )
}

/// Removing a Property definition makes exactly one revision, keeps the store consistent, is in
/// the journal, and leaves every fact as it was.
pub proof fn law_remove_property_commits(m: RecordModel, key: Seq<char>, n: RecordModel) -> (new: Seq<
    ChangeView,
>)
    requires
        consistent(m),
        remove_property_result(m, key) == Ok::<RecordModel, ErrorView>(n),
    ensures
        consistent(n),
        commits(m, n, new),
        n.nodes == m.nodes,
        n.relationships == m.relationships,
        n.issued == m.issued,
{
    let next = advance(m)->Ok_0;
    lemma_advance(m, next);
    lemma_runs_begin(next);
    lemma_single(n.journal.last());
    let referring = m.property_definitions.dom().filter(
        |k: Seq<char>|
            crate::record_store::definitions::is_text(
                m.property_definitions[k].definition.replacement_key,
                key,
            ),
    );
    assert(referring.finite()) by {
        m.property_definitions.dom().lemma_len_filter(
            |k: Seq<char>|
                crate::record_store::definitions::is_text(
                    m.property_definitions[k].definition.replacement_key,
                    key,
                ),
        );
    }
    assert(referring.len() == 0);
    assert forall|k: Seq<char>| #[trigger]
        n.property_definitions.dom().contains(k) implies property_definition_ok(n, k) by {
        assert(next.property_definitions.dom().contains(k));
        if m.property_definitions[k].definition.replacement_key == Some(key) {
            assert(referring.contains(k));
            referring.lemma_len0_is_empty();
        }
    }
    assert forall|k: Seq<char>| #[trigger]
        n.relationship_definitions.dom().contains(k) implies relationship_definition_ok(n, k) by {
        assert(next.relationship_definitions.dom().contains(k));
    }
    lemma_same_nodes(next, n);
    lemma_same_relationships(next, n);
    assert(steps(next, n, 0));
    let none = Seq::<ChangeView>::empty();
    lemma_runs_step(next, next, n, none);
    let new = none.push(n.journal.last());
    lemma_run_commits(m, next, n, new);
    new
}

/// Setting a Relationship definition that can stand is a commit.
proof fn lemma_put_relationship(
    m: RecordModel,
    next: RecordModel,
    n: RecordModel,
    definition: crate::api::RelationshipDefinitionView,
    kind: ChangeKind,
    replacement: Option<Seq<char>>,
) -> (new: Seq<ChangeView>)
    requires
        consistent(m),
        advance(m) == Ok::<RecordModel, ErrorView>(next),
        crate::record_store::projection::is_relationship_definition_change(kind),
        key_ok(definition.key),
        0 < definition.version <= i64::MAX,
        definition.inverse_label == kept_label(definition.inverse_label),
        match definition.replacement_key {
            Some(other) => m.relationship_definitions.dom().contains(other),
            None => true,
        },
        n == crate::record_store::definitions::with_relationship_definition(
            next,
            definition,
            kind,
            replacement,
        ),
    ensures
        consistent(n),
        commits(m, n, new),
        new.len() == 1,
        n.nodes == m.nodes,
        n.relationships == m.relationships,
        n.issued == m.issued,
{
    lemma_advance(m, next);
    lemma_runs_begin(next);
    lemma_single(n.journal.last());
    assert forall|k: Seq<char>| #[trigger]
        n.relationship_definitions.dom().contains(k) implies relationship_definition_ok(n, k) by {
        if k != definition.key {
            assert(next.relationship_definitions.dom().contains(k));
        }
    }
    assert forall|k: Seq<char>| #[trigger]
        n.property_definitions.dom().contains(k) implies property_definition_ok(n, k) by {
        assert(next.property_definitions.dom().contains(k));
    }
    lemma_same_nodes(next, n);
    lemma_same_relationships(next, n);
    assert(steps(next, n, 0));
    let none = Seq::<ChangeView>::empty();
    lemma_runs_step(next, next, n, none);
    let new = none.push(n.journal.last());
    lemma_run_commits(m, next, n, new);
    new
}

/// Registering a Relationship definition makes exactly one revision, keeps the store consistent, is in
/// the journal, and leaves every fact as it was.
pub proof fn law_register_relationship_commits(
    m: RecordModel,
    input: NewRelationshipDefinition,
    n: RecordModel,
) -> (new: Seq<ChangeView>)
    requires
        consistent(m),
        register_relationship_result(m, new_relationship_definition(input)) == Ok::<RecordModel, ErrorView>(n),
    ensures
        consistent(n),
        commits(m, n, new),
        n.nodes == m.nodes,
        n.relationships == m.relationships,
        n.issued == m.issued,
{
    lemma_put_relationship(
        m,
        advance(m)->Ok_0,
        n,
        crate::record_store::definitions::kept_relationship_definition(new_relationship_definition(input)),
        ChangeKind::RelationshipDefinitionRegistered,
        None,
    )
}

/// Updating a Relationship definition makes exactly one revision, keeps the store consistent, is in the
/// journal, and leaves every fact as it was.
pub proof fn law_update_relationship_commits(
    m: RecordModel,
    key: Seq<char>,
    update: RelationshipDefinitionUpdate,
    n: RecordModel,
) -> (new: Seq<ChangeView>)
    requires
        consistent(m),
        update_relationship_result(m, key, update) == Ok::<RecordModel, ErrorView>(n),
    ensures
        consistent(n),
        commits(m, n, new),
        n.nodes == m.nodes,
        n.relationships == m.relationships,
        n.issued == m.issued,
{
    assert(m.relationship_definitions.dom().contains(key));
    lemma_put_relationship(
        m,
        advance(m)->Ok_0,
        n,
        crate::record_store::definitions::kept_relationship_definition(
            crate::record_store::definitions::updated_relationship(m, key, update),
        ),
        ChangeKind::RelationshipDefinitionUpdated,
        None,
    )
}

/// Deprecating a Relationship definition makes exactly one revision, keeps the store consistent, is in
/// the journal, and leaves every fact as it was.
pub proof fn law_deprecate_relationship_commits(
    m: RecordModel,
    key: Seq<char>,
    replacement: Option<Seq<char>>,
    n: RecordModel,
) -> (new: Seq<ChangeView>)
    requires
        consistent(m),
        deprecate_relationship_result(m, key, replacement) == Ok::<RecordModel, ErrorView>(n),
    ensures
        consistent(n),
        commits(m, n, new),
        n.nodes == m.nodes,
        n.relationships == m.relationships,
        n.issued == m.issued,
{
    assert(m.relationship_definitions.dom().contains(key));
    lemma_put_relationship(
        m,
        advance(m)->Ok_0,
        n,
        crate::record_store::definitions::deprecated_relationship(m, key, replacement),
        ChangeKind::RelationshipDefinitionDeprecated,
        replacement,
    )
}

/// Removing a Relationship definition makes exactly one revision, keeps the store consistent, is in
/// the journal, and leaves every fact as it was.
pub proof fn law_remove_relationship_commits(m: RecordModel, key: Seq<char>, n: RecordModel) -> (new: Seq<
    ChangeView,
>)
    requires
        consistent(m),
        remove_relationship_result(m, key) == Ok::<RecordModel, ErrorView>(n),
    ensures
        consistent(n),
        commits(m, n, new),
        n.nodes == m.nodes,
        n.relationships == m.relationships,
        n.issued == m.issued,
{
    let next = advance(m)->Ok_0;
    lemma_advance(m, next);
    lemma_runs_begin(next);
    lemma_single(n.journal.last());
    let referring = m.relationship_definitions.dom().filter(
        |k: Seq<char>|
            crate::record_store::definitions::is_text(
                m.relationship_definitions[k].definition.replacement_key,
                key,
            ),
    );
    assert(referring.finite()) by {
        m.relationship_definitions.dom().lemma_len_filter(
            |k: Seq<char>|
                crate::record_store::definitions::is_text(
                    m.relationship_definitions[k].definition.replacement_key,
                    key,
                ),
        );
    }
    assert(referring.len() == 0);
    assert forall|k: Seq<char>| #[trigger]
        n.relationship_definitions.dom().contains(k) implies relationship_definition_ok(n, k) by {
        assert(next.relationship_definitions.dom().contains(k));
        if m.relationship_definitions[k].definition.replacement_key == Some(key) {
            assert(referring.contains(k));
            referring.lemma_len0_is_empty();
        }
    }
    assert forall|k: Seq<char>| #[trigger]
        n.property_definitions.dom().contains(k) implies property_definition_ok(n, k) by {
        assert(next.property_definitions.dom().contains(k));
    }
    lemma_same_nodes(next, n);
    lemma_same_relationships(next, n);
    assert(steps(next, n, 0));
    let none = Seq::<ChangeView>::empty();
    lemma_runs_step(next, next, n, none);
    let new = none.push(n.journal.last());
    lemma_run_commits(m, next, n, new);
    new
}

} // verus!
