//! What holds of IDs, Nodes, Properties and Relationships from change to change.
use vstd::prelude::*;
use crate::api::{Mutation, RelationshipView};
use crate::error::ErrorView;
use crate::id::NodeId;
use crate::record_store::keys::{key_fault, KeyUse};
use crate::record_store::model::{nodes_issued, NodeRowView, PropertyRowView, RecordModel};
use crate::record_store::operations::{
    advance, already_issued, batch_result, create_all_result, create_result, insert_all, mutate,
    mutate_all, no_node, reserve_all, resolution,
};
use crate::value::{value_fault, RealView, ValueView};

verus! {

/// Whether no ID is forgotten and no ID that has lost its Node has one again.
pub open spec fn keeps_identity(m: RecordModel, n: RecordModel) -> bool {
    &&& forall|id: NodeId| m.issued.contains(id) ==> #[trigger] n.issued.contains(id)
    &&& forall|id: NodeId|
        m.issued.contains(id) && !m.nodes.dom().contains(id) ==> !#[trigger] n.nodes.dom().contains(
            id,
        )
}

proof fn lemma_mutate_keeps_identity(
    m: RecordModel,
    ordinal: u64,
    mutation: Mutation,
    n: RecordModel,
)
    requires
        mutate(m, ordinal, mutation) == Ok::<RecordModel, ErrorView>(n),
    ensures
        keeps_identity(m, n),
{
    reveal(mutate);
}

proof fn lemma_mutate_all_keeps_identity(
    m: RecordModel,
    mutations: Seq<Mutation>,
    count: nat,
    n: RecordModel,
)
    requires
        count <= mutations.len(),
        mutate_all(m, mutations, count) == Ok::<RecordModel, ErrorView>(n),
    ensures
        keeps_identity(m, n),
    decreases count,
{
    if count > 0 {
        let k = mutate_all(m, mutations, (count - 1) as nat)->Ok_0;
        lemma_mutate_all_keeps_identity(m, mutations, (count - 1) as nat, k);
        lemma_mutate_keeps_identity(k, (count - 1) as u64, mutations[count - 1], n);
        assert forall|id: NodeId| m.issued.contains(id) implies #[trigger] n.issued.contains(id) by {
            assert(k.issued.contains(id));
        }
        assert forall|id: NodeId|
            m.issued.contains(id) && !m.nodes.dom().contains(id) implies !#[trigger] n.nodes.dom().contains(
        id) by {
            assert(k.issued.contains(id));
            assert(!k.nodes.dom().contains(id));
        }
    }
}

/// An issued ID stays issued, and one whose Node was purged stays retired, whatever a batch does.
pub proof fn law_batch_keeps_identity(
    m: RecordModel,
    mutations: Seq<Mutation>,
    n: RecordModel,
    id: NodeId,
)
    requires
        batch_result(m, mutations) == Ok::<RecordModel, ErrorView>(n),
    ensures
        m.issued.contains(id) ==> n.issued.contains(id),
        resolution(m, id) is Retired ==> resolution(n, id) is Retired,
{
    let next = advance(m)->Ok_0;
    lemma_mutate_all_keeps_identity(next, mutations, mutations.len(), n);
}

/// An issued ID stays issued, and a retired one stays retired, when a Node is created.
pub proof fn law_create_keeps_identity(m: RecordModel, other: NodeId, n: RecordModel, id: NodeId)
    requires
        create_result(m, other) == Ok::<RecordModel, ErrorView>(n),
    ensures
        m.issued.contains(id) ==> n.issued.contains(id),
        resolution(m, id) is Retired ==> resolution(n, id) is Retired,
        resolution(n, other) is Active,
{
}

proof fn lemma_reserve_grows(issued: Set<NodeId>, ids: Seq<NodeId>, n: nat, now: Set<NodeId>)
    requires
        n <= ids.len(),
        reserve_all(issued, ids, n) == Ok::<Set<NodeId>, ErrorView>(now),
    ensures
        forall|id: NodeId| issued.contains(id) ==> #[trigger] now.contains(id),
        forall|i: int| 0 <= i < n ==> now.contains(#[trigger] ids[i]) && !issued.contains(ids[i]),
    decreases n,
{
    if n > 0 {
        let was = reserve_all(issued, ids, (n - 1) as nat)->Ok_0;
        lemma_reserve_grows(issued, ids, (n - 1) as nat, was);
        assert forall|id: NodeId| issued.contains(id) implies #[trigger] now.contains(id) by {
            assert(was.contains(id));
        }
        assert forall|i: int| 0 <= i < n implies now.contains(#[trigger] ids[i])
            && !issued.contains(ids[i]) by {
            if i < n - 1 {
                assert(was.contains(ids[i]));
            } else if issued.contains(ids[i]) {
                assert(was.contains(ids[i]));
            }
        }
    }
}

proof fn lemma_insert_all_nodes(m: RecordModel, ids: Seq<NodeId>, n: nat)
    requires
        n <= ids.len(),
    ensures
        insert_all(m, ids, n).issued == m.issued,
        forall|id: NodeId|
            !m.nodes.dom().contains(id) && !(exists|i: int| 0 <= i < n && #[trigger] ids[i] == id)
                ==> !#[trigger] insert_all(m, ids, n).nodes.dom().contains(id),
    decreases n,
{
    if n > 0 {
        lemma_insert_all_nodes(m, ids, (n - 1) as nat);
        let k = insert_all(m, ids, (n - 1) as nat);
        assert forall|id: NodeId|
            !m.nodes.dom().contains(id) && !(exists|i: int|
                0 <= i < n && #[trigger] ids[i] == id) implies !#[trigger] insert_all(
            m,
            ids,
            n,
        ).nodes.dom().contains(id) by {
            assert(ids[n - 1] != id);
            assert(!(exists|i: int| 0 <= i < n - 1 && #[trigger] ids[i] == id));
            assert(!k.nodes.dom().contains(id));
        }
    }
}

/// An issued ID stays issued, and a retired one stays retired, when several Nodes are created.
pub proof fn law_create_all_keeps_identity(
    m: RecordModel,
    ids: Seq<NodeId>,
    n: RecordModel,
    id: NodeId,
)
    requires
        create_all_result(m, ids) == Ok::<RecordModel, ErrorView>(n),
    ensures
        m.issued.contains(id) ==> n.issued.contains(id),
        resolution(m, id) is Retired ==> resolution(n, id) is Retired,
{
    let next = advance(m)->Ok_0;
    let issued = reserve_all(m.issued, ids, ids.len())->Ok_0;
    lemma_reserve_grows(m.issued, ids, ids.len(), issued);
    lemma_insert_all_nodes(RecordModel { issued, ..next }, ids, ids.len());
}

/// An ID is issued once: creating a Node with an issued ID fails, alone, in a batch or among
/// several.
pub proof fn law_ids_are_never_reused(m: RecordModel, id: NodeId)
    requires
        m.issued.contains(id),
    ensures
        create_result(m, id) == Err::<RecordModel, ErrorView>(already_issued(id)),
        m.revision < i64::MAX ==> batch_result(m, seq![Mutation::CreateNode { node_id: id }])
            == Err::<RecordModel, ErrorView>(already_issued(id)),
        create_all_result(m, seq![id]) == Err::<RecordModel, ErrorView>(already_issued(id)),
{
    reveal(mutate);
    reveal_with_fuel(mutate_all, 2);
    reveal_with_fuel(reserve_all, 2);
}

/// Restoring a tombstoned Node gives back the Node with its Properties: but for the revisions at
/// which it was changed, everything is as before.
pub proof fn law_restore_undoes_tombstone(m: RecordModel, id: NodeId)
    requires
        resolution(m, id) is Active,
        m.revision < i64::MAX - 1,
    ensures
        ({
            let t = batch_result(m, seq![Mutation::TombstoneNode { node_id: id }]);
            &&& t is Ok
            &&& resolution(t->Ok_0, id) is Tombstoned
            &&& t->Ok_0.nodes[id].properties == m.nodes[id].properties
            &&& t->Ok_0.relationships == m.relationships
            &&& ({
                let r = batch_result(t->Ok_0, seq![Mutation::RestoreNode { node_id: id }]);
                &&& r is Ok
                &&& r->Ok_0.nodes == m.nodes.insert(
                    id,
                    NodeRowView { modified_revision: (m.revision + 2) as u64, ..m.nodes[id] },
                )
                &&& r->Ok_0.issued == m.issued
                &&& r->Ok_0.relationships == m.relationships
                &&& r->Ok_0.property_definitions == m.property_definitions
                &&& r->Ok_0.relationship_definitions == m.relationship_definitions
            })
        }),
{
    reveal(mutate);
    reveal_with_fuel(mutate_all, 2);
    let t = batch_result(m, seq![Mutation::TombstoneNode { node_id: id }])->Ok_0;
    let r = batch_result(t, seq![Mutation::RestoreNode { node_id: id }])->Ok_0;
    assert(r.nodes =~= m.nodes.insert(
        id,
        NodeRowView { modified_revision: (m.revision + 2) as u64, ..m.nodes[id] },
    ));
}

/// A Node can be purged exactly when it is tombstoned. Purging removes it with its Properties; the
/// ID stays issued and is retired from then on, and the Relationships that name it stay.
pub proof fn law_purge_retires(m: RecordModel, id: NodeId)
    requires
        m.revision < i64::MAX,
        m.nodes.dom().contains(id) ==> m.issued.contains(id),
    ensures
        ({
            let p = batch_result(m, seq![Mutation::PurgeNode { node_id: id }]);
            &&& p is Ok <==> resolution(m, id) is Tombstoned
            &&& p is Ok ==> {
                &&& resolution(p->Ok_0, id) is Retired
                &&& p->Ok_0.nodes == m.nodes.remove(id)
                &&& p->Ok_0.issued == m.issued
                &&& p->Ok_0.relationships == m.relationships
            }
        }),
{
    reveal(mutate);
    reveal_with_fuel(mutate_all, 2);
}

/// Setting a Property gives the Node that value, of which only the real minus zero is not kept as
/// given but becomes zero, and leaves every other Property, every other Node and every Relationship as
/// it was; removing it again leaves the Node without it.
pub proof fn law_set_and_remove_property(
    m: RecordModel,
    node_id: NodeId,
    key: String,
    value: crate::value::PropertyValue,
    s: RecordModel,
)
    requires
        m.revision < i64::MAX - 1,
        batch_result(m, seq![Mutation::SetProperty { node_id, key, value }]) == Ok::<
            RecordModel,
            ErrorView,
        >(s),
    ensures
        s.nodes[node_id].properties.dom().contains(key@),
        !(value is Real && value->Real_0.bits == 0x8000_0000_0000_0000)
            ==> s.nodes[node_id].properties[key@].value == value@,
        value is Real && value->Real_0.bits == 0x8000_0000_0000_0000
            ==> s.nodes[node_id].properties[key@].value == ValueView::Real(
            RealView { bits: 0, text: "0.0"@ },
        ),
        s.nodes[node_id].properties.remove(key@) == m.nodes[node_id].properties.remove(key@),
        s.nodes.remove(node_id) == m.nodes.remove(node_id),
        s.relationships == m.relationships,
        ({
            let r = batch_result(s, seq![Mutation::RemoveProperty { node_id, key }]);
            &&& r is Ok
            &&& r->Ok_0.nodes[node_id].properties == m.nodes[node_id].properties.remove(key@)
        }),
{
    reveal(mutate);
    reveal_with_fuel(mutate_all, 2);
    assert(s.nodes[node_id].properties.remove(key@) =~= m.nodes[node_id].properties.remove(key@));
    assert(s.nodes.remove(node_id) =~= m.nodes.remove(node_id));
}

/// A Relationship stands once: once added it cannot be added again, and removing it gives back the
/// Relationships there were.
pub proof fn law_add_and_remove_relationship(
    m: RecordModel,
    source: NodeId,
    key: String,
    target: NodeId,
    s: RecordModel,
)
    requires
        m.revision < i64::MAX - 1,
        forall|id: NodeId| #[trigger] m.nodes.dom().contains(id) ==> m.issued.contains(id),
        batch_result(m, seq![Mutation::AddRelationship { source, key, target }]) == Ok::<
            RecordModel,
            ErrorView,
        >(s),
    ensures
        s.relationships.dom().contains(RelationshipView { source, key: key@, target }),
        batch_result(s, seq![Mutation::AddRelationship { source, key, target }]) is Err,
        ({
            let r = batch_result(s, seq![Mutation::RemoveRelationship { source, key, target }]);
            &&& r is Ok
            &&& r->Ok_0.relationships == m.relationships
        }),
{
    reveal(mutate);
    reveal_with_fuel(mutate_all, 2);
    let r = RelationshipView { source, key: key@, target };
    assert(m.nodes.dom().contains(source) && m.nodes.dom().contains(target));
    assert(s.relationships.remove(r) =~= m.relationships);
}

/// Creating a Node with an ID follows what the ID stands for: it succeeds exactly where the ID was
/// never issued, as long as there is a next revision, and then the ID stands for an active Node. An
/// ID that was issued, whatever became of its Node, is refused.
pub proof fn law_creation_follows_resolution(m: RecordModel, id: NodeId)
    requires
        nodes_issued(m),
        m.revision < i64::MAX,
    ensures
        match create_result(m, id) {
            Ok(n) => resolution(m, id) is NeverIssued && resolution(n, id) is Active
                && n.nodes[id].properties == Map::<Seq<char>, PropertyRowView>::empty(),
            Err(e) => !(resolution(m, id) is NeverIssued) && e == already_issued(id),
        },
{
}

/// A Node can be restored exactly where it is tombstoned: one that is active is a conflict, and one
/// that is not there is not found.
pub proof fn law_only_tombstoned_nodes_are_restored(m: RecordModel, id: NodeId)
    requires
        m.revision < i64::MAX,
    ensures
        match batch_result(m, seq![Mutation::RestoreNode { node_id: id }]) {
            Ok(n) => resolution(m, id) is Tombstoned && resolution(n, id) is Active,
            Err(e) => if resolution(m, id) is Active {
                e is Conflict
            } else {
                !(resolution(m, id) is Tombstoned) && e == no_node(id)
            },
        },
{
    reveal(mutate);
    reveal_with_fuel(mutate_all, 2);
}

/// A tombstoned Node takes no Property: a valid one is a conflict.
pub proof fn law_tombstoned_nodes_take_no_property(
    m: RecordModel,
    id: NodeId,
    key: String,
    value: crate::value::PropertyValue,
)
    requires
        m.revision < i64::MAX,
        resolution(m, id) is Tombstoned,
        key_fault(key@, KeyUse::Property) is None,
        value_fault(value@) is None,
    ensures
        ({
            let r = batch_result(m, seq![Mutation::SetProperty { node_id: id, key, value }]);
            r is Err && r->Err_0 is Conflict
        }),
{
    reveal(mutate);
    reveal_with_fuel(mutate_all, 2);
}

} // verus!
