//! What holds of a store over any run of operations.
use vstd::prelude::*;
use crate::api::{
    Mutation, NewPropertyDefinition, NewRelationshipDefinition, PropertyDefinitionUpdate,
    RelationshipDefinitionUpdate,
};
use crate::error::ErrorView;
use crate::id::NodeId;
use crate::record_store::dating::{law_batch_dates_changes, law_create_dates_changes};
use crate::record_store::definitions::{
    deprecate_property_result, deprecate_relationship_result, new_property_definition,
    new_relationship_definition, register_property_result, register_relationship_result,
    remove_property_result, remove_relationship_result, update_property_result,
    update_relationship_result,
};
use crate::record_store::history::leads;
use crate::record_store::laws::{
    commits, consistent, law_batch_commits, law_create_all_commits, law_create_commits,
    law_deprecate_property_commits, law_deprecate_relationship_commits,
    law_register_property_commits, law_register_relationship_commits, law_remove_property_commits,
    law_remove_relationship_commits, law_update_property_commits, law_update_relationship_commits,
};
use crate::record_store::lifecycle::{
    keeps_identity, law_batch_keeps_identity, law_create_all_keeps_identity,
    law_create_keeps_identity,
};
use crate::record_store::model::{empty_model, RecordModel};
use crate::record_store::operations::{
    advance, batch_result, create_all_result, create_result, insert_all, mutate, mutate_all,
    reserve_all, resolution,
};
use crate::record_store::projection::pruned;
use crate::record_store::schema::{
    ends_at_revision, law_commit_ends_the_journal, law_prune_keeps_the_end, loaded,
};
use crate::table::lookup;

verus! {

/// Whatever a caller can ask of a store that may change it.
pub enum Operation {
    Batch(Seq<Mutation>),
    Create(NodeId),
    CreateAll(Seq<NodeId>),
    RegisterProperty(NewPropertyDefinition),
    UpdateProperty(Seq<char>, PropertyDefinitionUpdate),
    DeprecateProperty(Seq<char>, Option<Seq<char>>),
    RemoveProperty(Seq<char>),
    RegisterRelationship(NewRelationshipDefinition),
    UpdateRelationship(Seq<char>, RelationshipDefinitionUpdate),
    DeprecateRelationship(Seq<char>, Option<Seq<char>>),
    RemoveRelationship(Seq<char>),
    /// Forgetting the journal entries that need not be kept.
    Prune,
}

/// What an operation makes of a store.
pub open spec fn performed(m: RecordModel, op: Operation) -> Result<RecordModel, ErrorView> {
    match op {
        Operation::Batch(mutations) => batch_result(m, mutations),
        Operation::Create(id) => create_result(m, id),
        Operation::CreateAll(ids) => create_all_result(m, ids),
        Operation::RegisterProperty(input) => register_property_result(
            m,
            new_property_definition(input),
        ),
        Operation::UpdateProperty(key, update) => update_property_result(m, key, update),
        Operation::DeprecateProperty(key, replacement) => deprecate_property_result(
            m,
            key,
            replacement,
        ),
        Operation::RemoveProperty(key) => remove_property_result(m, key),
        Operation::RegisterRelationship(input) => register_relationship_result(
            m,
            new_relationship_definition(input),
        ),
        Operation::UpdateRelationship(key, update) => update_relationship_result(m, key, update),
        Operation::DeprecateRelationship(key, replacement) => deprecate_relationship_result(
            m,
            key,
            replacement,
        ),
        Operation::RemoveRelationship(key) => remove_relationship_result(m, key),
        Operation::Prune => Ok(pruned(m)),
    }
}

/// Whether an operation is no longer than a slice can be.
pub open spec fn fits(op: Operation) -> bool {
    match op {
        Operation::Batch(mutations) => mutations.len() <= u64::MAX,
        Operation::CreateAll(ids) => ids.len() <= u64::MAX,
        _ => true,
    }
}

/// Whether an operation creates a Node with an ID.
pub open spec fn creates(op: Operation, id: NodeId) -> bool {
    match op {
        Operation::Batch(mutations) => batch_creates(mutations, mutations.len(), id),
        Operation::Create(other) => other == id,
        Operation::CreateAll(ids) => ids.contains(id),
        _ => false,
    }
}

/// Whether one of the first `n` changes of a batch creates a Node with an ID.
pub open spec fn batch_creates(mutations: Seq<Mutation>, n: nat, id: NodeId) -> bool {
    exists|i: int|
        0 <= i < n && i < mutations.len() && #[trigger] mutations[i] == (Mutation::CreateNode {
            node_id: id,
        })
}

/// Whether a store went through these contents by these operations, all of which succeeded.
pub open spec fn is_run(h: Seq<RecordModel>, ops: Seq<Operation>) -> bool {
    &&& h.len() == ops.len() + 1
    &&& forall|i: int|
        0 <= i < ops.len() ==> fits(#[trigger] ops[i]) && performed(h[i], ops[i]) == Ok::<
            RecordModel,
            ErrorView,
        >(h[i + 1])
}

/// Whether every Node that differs between two stores, and is still there, was changed after the
/// revision of the earlier one.
pub open spec fn dates_since(a: RecordModel, b: RecordModel) -> bool {
    &&& a.revision <= b.revision
    &&& forall|id: NodeId|
        b.nodes.dom().contains(id) && #[trigger] lookup(b.nodes, id) != lookup(a.nodes, id)
            ==> b.nodes[id].modified_revision > a.revision
}

proof fn lemma_mutate_issues(
    m: RecordModel,
    ordinal: u64,
    mutation: Mutation,
    n: RecordModel,
    id: NodeId,
)
    requires
        mutate(m, ordinal, mutation) == Ok::<RecordModel, ErrorView>(n),
    ensures
        n.issued.contains(id) <==> m.issued.contains(id) || mutation == (Mutation::CreateNode {
            node_id: id,
        }),
{
    reveal(mutate);
}

proof fn lemma_mutate_all_issues(
    m: RecordModel,
    mutations: Seq<Mutation>,
    count: nat,
    n: RecordModel,
    id: NodeId,
)
    requires
        count <= mutations.len(),
        mutate_all(m, mutations, count) == Ok::<RecordModel, ErrorView>(n),
    ensures
        n.issued.contains(id) <==> m.issued.contains(id) || batch_creates(mutations, count, id),
    decreases count,
{
    if count > 0 {
        let k = mutate_all(m, mutations, (count - 1) as nat)->Ok_0;
        lemma_mutate_all_issues(m, mutations, (count - 1) as nat, k, id);
        lemma_mutate_issues(k, (count - 1) as u64, mutations[count - 1], n, id);
        if batch_creates(mutations, (count - 1) as nat, id) {
            let i = choose|i: int|
                0 <= i < count - 1 && i < mutations.len() && #[trigger] mutations[i] == (
                Mutation::CreateNode { node_id: id });
            assert(mutations[i] == (Mutation::CreateNode { node_id: id }));
        }
    }
}

proof fn lemma_reserve_issues(issued: Set<NodeId>, ids: Seq<NodeId>, n: nat, now: Set<NodeId>)
    requires
        n <= ids.len(),
        reserve_all(issued, ids, n) == Ok::<Set<NodeId>, ErrorView>(now),
    ensures
        forall|id: NodeId| #[trigger]
            now.contains(id) <==> issued.contains(id) || ids.take(n as int).contains(id),
    decreases n,
{
    if n > 0 {
        let was = reserve_all(issued, ids, (n - 1) as nat)->Ok_0;
        lemma_reserve_issues(issued, ids, (n - 1) as nat, was);
        let fewer = ids.take(n - 1);
        let more = ids.take(n as int);
        assert(more =~= fewer.push(ids[n - 1]));
        assert forall|id: NodeId| #[trigger] now.contains(id) <==> issued.contains(id)
            || more.contains(id) by {
            assert(was.contains(id) <==> issued.contains(id) || fewer.contains(id));
            if fewer.contains(id) {
                let i = fewer.index_of(id);
                assert(more[i] == id);
            }
            if more.contains(id) {
                let i = more.index_of(id);
                if i < n - 1 {
                    assert(fewer[i] == id);
                }
            }
            assert(more[n - 1] == ids[n - 1]);
        }
    } else {
        assert(ids.take(0).len() == 0);
    }
}

proof fn lemma_insert_all_issues(m: RecordModel, ids: Seq<NodeId>, n: nat)
    requires
        n <= ids.len(),
    ensures
        insert_all(m, ids, n).issued == m.issued,
    decreases n,
{
    if n > 0 {
        lemma_insert_all_issues(m, ids, (n - 1) as nat);
    }
}

/// An operation issues exactly the IDs that it creates Nodes with.
pub proof fn law_operation_issues(m: RecordModel, op: Operation, n: RecordModel, id: NodeId)
    requires
        consistent(m),
        fits(op),
        performed(m, op) == Ok::<RecordModel, ErrorView>(n),
    ensures
        n.issued.contains(id) <==> m.issued.contains(id) || creates(op, id),
{
    match op {
        Operation::Batch(mutations) => {
            let next = advance(m)->Ok_0;
            lemma_mutate_all_issues(next, mutations, mutations.len(), n, id);
        },
        Operation::CreateAll(ids) => {
            let next = advance(m)->Ok_0;
            let issued = reserve_all(m.issued, ids, ids.len())->Ok_0;
            lemma_reserve_issues(m.issued, ids, ids.len(), issued);
            assert(ids.take(ids.len() as int) =~= ids);
            lemma_insert_all_issues(RecordModel { issued, ..next }, ids, ids.len());
        },
        Operation::Create(_) => {},
        Operation::Prune => {},
        _ => {
            let new = lemma_definitions_commit(m, op, n);
        },
    }
}

proof fn lemma_definitions_commit(m: RecordModel, op: Operation, n: RecordModel) -> (new: Seq<
    crate::record_store::model::ChangeView,
>)
    requires
        consistent(m),
        !(op is Batch || op is Create || op is CreateAll || op is Prune),
        performed(m, op) == Ok::<RecordModel, ErrorView>(n),
    ensures
        consistent(n),
        commits(m, n, new),
        n.nodes == m.nodes,
        n.issued == m.issued,
{
    match op {
        Operation::RegisterProperty(input) => law_register_property_commits(m, input, n),
        Operation::UpdateProperty(key, update) => law_update_property_commits(m, key, update, n),
        Operation::DeprecateProperty(key, replacement) => law_deprecate_property_commits(
            m,
            key,
            replacement,
            n,
        ),
        Operation::RemoveProperty(key) => law_remove_property_commits(m, key, n),
        Operation::RegisterRelationship(input) => law_register_relationship_commits(m, input, n),
        Operation::UpdateRelationship(key, update) => law_update_relationship_commits(
            m,
            key,
            update,
            n,
        ),
        Operation::DeprecateRelationship(key, replacement) => law_deprecate_relationship_commits(
            m,
            key,
            replacement,
            n,
        ),
        Operation::RemoveRelationship(key) => law_remove_relationship_commits(m, key, n),
        _ => Seq::empty(),
    }
}

/// Every operation keeps a store consistent and, but for pruning, commits one revision. It dates
/// the Nodes it changes, forgets no issued ID, and gives no retired ID a Node again.
pub proof fn law_operation_keeps_the_store(m: RecordModel, op: Operation, n: RecordModel)
    requires
        consistent(m),
        ends_at_revision(m),
        fits(op),
        performed(m, op) == Ok::<RecordModel, ErrorView>(n),
    ensures
        consistent(n),
        ends_at_revision(n),
        !(op is Prune) ==> leads(m, n),
        dates_since(m, n),
        keeps_identity(m, n),
{
    match op {
        Operation::Prune => {
            law_prune_keeps_the_end(m);
        },
        Operation::Batch(mutations) => {
            let new = law_batch_commits(m, mutations, n);
            law_commit_ends_the_journal(m, n, new);
            law_batch_dates_changes(m, mutations, n);
            assert forall|id: NodeId|
                m.issued.contains(id) implies #[trigger] n.issued.contains(id) by {
                law_batch_keeps_identity(m, mutations, n, id);
            }
            assert forall|id: NodeId|
                m.issued.contains(id) && !m.nodes.dom().contains(
                    id,
                ) implies !#[trigger] n.nodes.dom().contains(id) by {
                law_batch_keeps_identity(m, mutations, n, id);
            }
        },
        Operation::Create(other) => {
            let new = law_create_commits(m, other, n);
            law_commit_ends_the_journal(m, n, new);
            law_create_dates_changes(m, other, Seq::empty(), n, n);
            assert forall|id: NodeId|
                m.issued.contains(id) && !m.nodes.dom().contains(
                    id,
                ) implies !#[trigger] n.nodes.dom().contains(id) by {
                law_create_keeps_identity(m, other, n, id);
            }
            assert forall|id: NodeId|
                m.issued.contains(id) implies #[trigger] n.issued.contains(id) by {
                law_create_keeps_identity(m, other, n, id);
            }
        },
        Operation::CreateAll(ids) => {
            let new = law_create_all_commits(m, ids, n);
            law_commit_ends_the_journal(m, n, new);
            law_create_dates_changes(m, ids[0], ids, n, n);
            assert forall|id: NodeId|
                m.issued.contains(id) && !m.nodes.dom().contains(
                    id,
                ) implies !#[trigger] n.nodes.dom().contains(id) by {
                law_create_all_keeps_identity(m, ids, n, id);
            }
            assert forall|id: NodeId|
                m.issued.contains(id) implies #[trigger] n.issued.contains(id) by {
                law_create_all_keeps_identity(m, ids, n, id);
            }
        },
        _ => {
            let new = lemma_definitions_commit(m, op, n);
            law_commit_ends_the_journal(m, n, new);
        },
    }
}

proof fn lemma_dates_since_joins(a: RecordModel, b: RecordModel, c: RecordModel)
    requires
        dates_since(a, b),
        dates_since(b, c),
    ensures
        dates_since(a, c),
{
    assert forall|id: NodeId|
        c.nodes.dom().contains(id) && #[trigger] lookup(c.nodes, id) != lookup(
            a.nodes,
            id,
        ) implies c.nodes[id].modified_revision > a.revision by {
        if lookup(c.nodes, id) == lookup(b.nodes, id) {
            assert(lookup(b.nodes, id) != lookup(a.nodes, id));
            assert(b.nodes.dom().contains(id));
        }
    }
}

/// Over any run of operations, pruning among them, the store stays consistent. Between any two of
/// its contents, every Node that changed carries a revision after the earlier one, no issued ID is
/// forgotten, and no retired ID has a Node again.
pub proof fn law_run_keeps_the_store(
    h: Seq<RecordModel>,
    ops: Seq<Operation>,
    from: int,
    to: int,
)
    requires
        is_run(h, ops),
        consistent(h[0]),
        ends_at_revision(h[0]),
        0 <= from <= to < h.len(),
    ensures
        consistent(h[to]),
        ends_at_revision(h[to]),
        dates_since(h[from], h[to]),
        keeps_identity(h[from], h[to]),
    decreases to,
{
    if to > 0 {
        law_run_keeps_the_store(h, ops, 0, to - 1);
        assert(fits(ops[to - 1]));
        law_operation_keeps_the_store(h[to - 1], ops[to - 1], h[to]);
        if from < to {
            law_run_keeps_the_store(h, ops, from, to - 1);
            lemma_dates_since_joins(h[from], h[to - 1], h[to]);
            lemma_identity_joins(h[from], h[to - 1], h[to]);
        }
    }
}

proof fn lemma_identity_joins(a: RecordModel, b: RecordModel, c: RecordModel)
    requires
        keeps_identity(a, b),
        keeps_identity(b, c),
    ensures
        keeps_identity(a, c),
{
    assert forall|id: NodeId| a.issued.contains(id) implies #[trigger] c.issued.contains(id) by {
        assert(b.issued.contains(id));
    }
    assert forall|id: NodeId|
        a.issued.contains(id) && !a.nodes.dom().contains(
            id,
        ) implies !#[trigger] c.nodes.dom().contains(id) by {
        assert(b.issued.contains(id));
        assert(!b.nodes.dom().contains(id));
    }
}

/// Whether one of the first `n` operations created a Node with an ID.
pub open spec fn ever_created(ops: Seq<Operation>, n: int, id: NodeId) -> bool {
    exists|i: int| 0 <= i < n && creates(#[trigger] ops[i], id)
}

proof fn lemma_run_issues(h: Seq<RecordModel>, ops: Seq<Operation>, n: int, id: NodeId)
    requires
        is_run(h, ops),
        h[0] == empty_model(),
        0 <= n < h.len(),
    ensures
        consistent(h[n]),
        h[n].issued.contains(id) <==> ever_created(ops, n, id),
    decreases n,
{
    crate::record_store::laws::law_empty_is_consistent();
    law_run_keeps_the_store(h, ops, 0, n);
    if n > 0 {
        lemma_run_issues(h, ops, n - 1, id);
        assert(fits(ops[n - 1]));
        law_operation_issues(h[n - 1], ops[n - 1], h[n], id);
        if ever_created(ops, n - 1, id) {
            let i = choose|i: int| 0 <= i < n - 1 && creates(#[trigger] ops[i], id);
            assert(creates(ops[i], id));
        }
        if ever_created(ops, n, id) {
            let i = choose|i: int| 0 <= i < n && creates(#[trigger] ops[i], id);
            if i < n - 1 {
                assert(ever_created(ops, n - 1, id));
            }
        }
    }
}

/// What an ID stands for, whatever was done to a store since it was empty. It is never issued
/// exactly if no operation that succeeded created a Node with it. It is active or tombstoned
/// exactly if there is a Node in that state, and retired exactly if it was issued and its Node is
/// gone. All this is the same once the store is closed and opened again.
pub proof fn law_resolution_tells_the_history(
    h: Seq<RecordModel>,
    ops: Seq<Operation>,
    id: NodeId,
)
    requires
        is_run(h, ops),
        h[0] == empty_model(),
        h.last().journal.len() <= u64::MAX,
    ensures
        ({
            let m = h.last();
            let there = m.nodes.dom().contains(id);
            &&& resolution(m, id) is NeverIssued <==> !ever_created(ops, ops.len() as int, id)
            &&& resolution(m, id) is Active <==> there && m.nodes[id].lifecycle_state is Active
            &&& resolution(m, id) is Tombstoned <==> there
                && m.nodes[id].lifecycle_state is Tombstoned
            &&& resolution(m, id) is Retired <==> ever_created(ops, ops.len() as int, id) && !there
            &&& loaded(m) == Ok::<RecordModel, ErrorView>(m)
        }),
{
    crate::record_store::laws::law_empty_is_consistent();
    let last = h.len() - 1;
    law_run_keeps_the_store(h, ops, 0, last);
    lemma_run_issues(h, ops, last, id);
    crate::record_store::schema::law_reopening_keeps_the_store(h.last());
    if h.last().nodes.dom().contains(id) {
        assert(h.last().issued.contains(id));
    }
}

} // verus!
