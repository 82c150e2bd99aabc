//! Every change of a Node is dated: a Node that a commit changed carries the revision of the commit.
use vstd::prelude::*;
use crate::api::Mutation;
use crate::error::ErrorView;
use crate::id::NodeId;
use crate::record_store::model::RecordModel;
use crate::record_store::operations::{
    advance, batch_result, create_all_result, create_result, insert_all, mutate, mutate_all,
    reserve_all,
};
use crate::table::lookup;

verus! {

/// Whether every Node that differs between two stores, and is still there, carries the revision of
/// the later one.
pub open spec fn dates_changes(m: RecordModel, n: RecordModel) -> bool {
    forall|id: NodeId|
        n.nodes.dom().contains(id) && #[trigger] lookup(n.nodes, id) != lookup(m.nodes, id)
            ==> n.nodes[id].modified_revision == n.revision
}

proof fn lemma_mutate_dates(m: RecordModel, ordinal: u64, mutation: Mutation, n: RecordModel)
    requires
        mutate(m, ordinal, mutation) == Ok::<RecordModel, ErrorView>(n),
    ensures
        n.revision == m.revision,
        dates_changes(m, n),
{
    reveal(mutate);
}

proof fn lemma_dates_join(m: RecordModel, k: RecordModel, n: RecordModel)
    requires
        dates_changes(m, k),
        dates_changes(k, n),
        n.revision == k.revision,
    ensures
        dates_changes(m, n),
{
    assert forall|id: NodeId|
        n.nodes.dom().contains(id) && #[trigger] lookup(n.nodes, id) != lookup(
            m.nodes,
            id,
        ) implies n.nodes[id].modified_revision == n.revision by {
        if lookup(n.nodes, id) == lookup(k.nodes, id) {
            assert(lookup(k.nodes, id) != lookup(m.nodes, id));
        }
    }
}

proof fn lemma_mutate_all_dates(
    m: RecordModel,
    mutations: Seq<Mutation>,
    count: nat,
    n: RecordModel,
)
    requires
        count <= mutations.len(),
        mutate_all(m, mutations, count) == Ok::<RecordModel, ErrorView>(n),
    ensures
        n.revision == m.revision,
        dates_changes(m, n),
    decreases count,
{
    if count > 0 {
        let k = mutate_all(m, mutations, (count - 1) as nat)->Ok_0;
        lemma_mutate_all_dates(m, mutations, (count - 1) as nat, k);
        lemma_mutate_dates(k, (count - 1) as u64, mutations[count - 1], n);
        lemma_dates_join(m, k, n);
    }
}

proof fn lemma_insert_all_dates(m: RecordModel, ids: Seq<NodeId>, count: nat)
    requires
        count <= ids.len(),
    ensures
        insert_all(m, ids, count).revision == m.revision,
        dates_changes(m, insert_all(m, ids, count)),
    decreases count,
{
    if count > 0 {
        lemma_insert_all_dates(m, ids, (count - 1) as nat);
        let k = insert_all(m, ids, (count - 1) as nat);
        lemma_dates_join(m, k, insert_all(m, ids, count));
    }
}

/// A batch dates every Node that it changes.
pub proof fn law_batch_dates_changes(m: RecordModel, mutations: Seq<Mutation>, n: RecordModel)
    requires
        batch_result(m, mutations) == Ok::<RecordModel, ErrorView>(n),
    ensures
        n.revision == m.revision + 1,
        dates_changes(m, n),
{
    let next = advance(m)->Ok_0;
    lemma_mutate_all_dates(next, mutations, mutations.len(), n);
    assert forall|id: NodeId|
        n.nodes.dom().contains(id) && #[trigger] lookup(n.nodes, id) != lookup(
            m.nodes,
            id,
        ) implies n.nodes[id].modified_revision == n.revision by {
        assert(lookup(next.nodes, id) == lookup(m.nodes, id));
    }
}

/// Creating Nodes, one or several, dates them and changes no other.
pub proof fn law_create_dates_changes(
    m: RecordModel,
    id: NodeId,
    ids: Seq<NodeId>,
    one: RecordModel,
    all: RecordModel,
)
    ensures
        create_result(m, id) == Ok::<RecordModel, ErrorView>(one) ==> one.revision == m.revision + 1
            && dates_changes(m, one),
        create_all_result(m, ids) == Ok::<RecordModel, ErrorView>(all) ==> all.revision
            == m.revision + 1 && dates_changes(m, all),
{
    if create_all_result(m, ids) == Ok::<RecordModel, ErrorView>(all) {
        let next = advance(m)->Ok_0;
        let issued = reserve_all(m.issued, ids, ids.len())->Ok_0;
        let begun = RecordModel { issued, ..next };
        lemma_insert_all_dates(begun, ids, ids.len());
        assert forall|other: NodeId|
            all.nodes.dom().contains(other) && #[trigger] lookup(all.nodes, other) != lookup(
                m.nodes,
                other,
            ) implies all.nodes[other].modified_revision == all.revision by {
            assert(lookup(begun.nodes, other) == lookup(m.nodes, other));
        }
    }
}

} // verus!
