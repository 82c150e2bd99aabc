//! What holds of a core over several calls.
use vstd::prelude::*;
use crate::api::{Commit, Mutation, RelationshipDirection};
use crate::error::{CoreError, ErrorView};
use crate::id::NodeId;
use crate::index::projection::{gone, reconcile_fault, reconciled};
use crate::record_store::history::is_history;
use crate::record_store::keys::{key_fault, KeyUse};
use crate::record_store::laws::{commits, law_batch_commits};
use crate::record_store::lifecycle::{
    law_creation_follows_resolution, law_only_tombstoned_nodes_are_restored,
    law_restore_undoes_tombstone, law_tombstoned_nodes_take_no_property,
};
use crate::record_store::model::{nodes_issued, ChangeView, RecordModel};
use crate::record_store::operations::{
    already_issued, batch_result, create_result, mutate, mutate_all, resolution,
};
use crate::record_store::projection::{changes_after, concerns_node, delta_since, nodes_in, pruned};
use crate::record_store::queries::relationship_list;
use crate::recovery::artifacts::{BaselineView, RecoveryManifest, RecoverySegment, SegmentView};
use crate::recovery::laws::bounded;
use crate::recovery::manager::{catch_up_action, reconcile_action, status_of};
use crate::recovery::plan::{BaselineFacts, RecoveryPlan};
use crate::recovery::repair::{
    best_is, files_sound, forward, law_reconciling_completes_a_barrier,
    law_reconciling_repairs_recovery, repaired,
};
use crate::security::StorageBoundary;
use crate::state::{
    answered, applied, awaiting_barrier, batch_answered, committed, follows,
    law_commit_keeps_a_core_sound, law_sync_keeps_a_core_sound, purges_any, settled, sound, sync_of,
    synced, with_records, write_fault, CoreModel,
};
use crate::value::{value_fault, PropertyValue};

verus! {

/// A batch whose two follow-ups both fail is committed all the same: the Index is stale, and the
/// recovery material lags behind. Reconciling both, without the batch being made again, brings both
/// up to the revision of the commit.
pub proof fn law_failed_follow_ups_are_repaired(
    c: CoreModel,
    mutations: Seq<Mutation>,
    m: RecordModel,
    manifest: RecoveryManifest,
    found: Seq<Result<BaselineFacts, CoreError>>,
    reads: Seq<Result<RecoverySegment, CoreError>>,
    best: Result<RecoveryPlan, CoreError>,
    segment: SegmentView,
    baseline: BaselineView,
    after: RecoveryManifest,
    found_after: Seq<Result<BaselineFacts, CoreError>>,
    reads_after: Seq<Result<RecoverySegment, CoreError>>,
    best_after: Result<RecoveryPlan, CoreError>,
)
    requires
        sound(c),
        mutations.len() <= u64::MAX,
        batch_result(c.records, mutations) == Ok::<RecordModel, ErrorView>(m),
        !purges_any(mutations),
        reconcile_fault(c.index, m, c.failure) is Some,
        manifest@.recovery_revision <= c.records.revision,
        bounded(manifest@),
        forward(manifest@),
        manifest@.generation < u64::MAX - 1,
        best_is(best, manifest@, found, reads),
        best is Ok,
        best->Ok_0.recovered_revision == manifest@.recovery_revision,
        segment.from_revision == manifest@.recovery_revision,
        segment.through_revision == m.revision,
        baseline.revision == m.revision,
        after@ == repaired(manifest@, reconcile_action(manifest@, m, best), segment, baseline),
        files_sound(after@, found_after, reads_after),
        best_is(best_after, after@, found_after, reads_after),
    ensures
        ({
            let lagging = settled(with_records(c, m));
            let current = synced(lagging);
            &&& lagging.records == m
            &&& sync_of(lagging).state is Stale
            &&& status_of(Ok(manifest), best, m.revision).state is Lagging
            &&& sync_of(current).state is Current
            &&& sync_of(current).record_revision == m.revision
            &&& current.index.shows(current.records)
            &&& status_of(Ok(after), best_after, m.revision).state is Current
            &&& status_of(Ok(after), best_after, m.revision).recoverable_revision == Some(
                m.revision,
            )
        }),
{
    let new = law_batch_commits(c.records, mutations, m);
    assert(commits(c.records, m, new));
    law_commit_keeps_a_core_sound(c, m);
    let d = with_records(c, m);
    let lagging = settled(d);
    let clear = CoreModel { failure: None, ..d };
    lemma_clear_is_sound(d);
    law_sync_keeps_a_core_sound(clear);
    assert(reconcile_fault(c.index, m, None) is None);
    assert(lagging.failure is None);
    law_sync_keeps_a_core_sound(lagging);
    law_reconciling_repairs_recovery(
        manifest,
        m,
        found,
        reads,
        best,
        segment,
        baseline,
        after,
        found_after,
        reads_after,
        best_after,
    );
}

proof fn lemma_clear_is_sound(c: CoreModel)
    requires
        sound(c),
    ensures
        sound(CoreModel { failure: None, ..c }),
{
    let d = CoreModel { failure: None, ..c };
    let h = choose|h: Seq<RecordModel>| #[trigger]
        is_history(h) && follows(c, h);
    assert(is_history(h) && follows(d, h));
}

/// A purge whose recovery barrier fails is committed all the same: the ID is retired. Reconciling
/// recovery, without the purge being made again, sets the barrier at the revision of the purge,
/// which is what can be recovered then. This holds as long as the material is whole and the journal
/// reaches back to it.
pub proof fn law_failed_barrier_is_repaired(
    c: CoreModel,
    id: NodeId,
    m: RecordModel,
    manifest: RecoveryManifest,
    best: Result<RecoveryPlan, CoreError>,
    segment: SegmentView,
    baseline: BaselineView,
    after: RecoveryManifest,
    found_after: Seq<Result<BaselineFacts, CoreError>>,
    reads_after: Seq<Result<RecoverySegment, CoreError>>,
    best_after: Result<RecoveryPlan, CoreError>,
)
    requires
        nodes_issued(c.records),
        batch_result(c.records, seq![Mutation::PurgeNode { node_id: id }]) == Ok::<
            RecordModel,
            ErrorView,
        >(m),
        manifest@.recovery_revision <= c.records.revision,
        best is Ok,
        best->Ok_0.recovered_revision == manifest@.recovery_revision,
        delta_since(m, manifest@.recovery_revision) is Available,
        baseline.revision == m.revision,
        after@ == repaired(manifest@, reconcile_action(manifest@, m, best), segment, baseline),
        files_sound(after@, found_after, reads_after),
        best_is(best_after, after@, found_after, reads_after),
    ensures
        ({
            let committed = awaiting_barrier(with_records(c, m));
            let status = status_of(Ok(after), best_after, m.revision);
            &&& m.revision == c.records.revision + 1
            &&& resolution(committed.records, id) is Retired
            &&& status.state is Current
            &&& status.purge_barrier_revision == Some(m.revision)
            &&& status.recoverable_revision == Some(m.revision)
        }),
{
    reveal(mutate);
    reveal_with_fuel(mutate_all, 2);
    let since = manifest@.recovery_revision;
    let changes = changes_after(m.journal, since);
    let recent = |c: ChangeView| c.revision > since;
    let last = m.journal.last();
    assert(changes.len() > 0 && changes.last() == last) by {
        reveal(Seq::filter);
    }
    assert(concerns_node(changes[changes.len() - 1], id));
    assert(nodes_in(changes).contains(id));
    let p = delta_since(m, since)->Available_0;
    assert(gone(p, id));
    law_reconciling_completes_a_barrier(
        manifest,
        m,
        best,
        segment,
        baseline,
        after,
        found_after,
        reads_after,
        best_after,
    );
}

/// Creating a Node with an ID in a core follows what the ID stands for: it succeeds exactly where
/// the ID was never issued, and the ID stands for an active Node then. Where the ID was issued, it
/// is refused.
pub proof fn law_core_creation_follows_resolution(c: CoreModel, id: NodeId)
    requires
        nodes_issued(c.records),
        write_fault(c) is None,
        c.records.revision < i64::MAX,
    ensures
        match create_result(c.records, id) {
            Ok(n) => resolution(c.records, id) is NeverIssued && resolution(
                settled(with_records(c, n)).records,
                id,
            ) is Active,
            Err(e) => !(resolution(c.records, id) is NeverIssued) && e == already_issued(id),
        },
{
    law_creation_follows_resolution(c.records, id);
}

/// Tombstoning a Node in a core and restoring it gives back what there was: the Node is active
/// again, with the same Properties and the same Relationships. In between it takes no Property.
/// Restoring it once more is a conflict.
pub proof fn law_core_restores_what_there_was(
    c: CoreModel,
    id: NodeId,
    key: String,
    value: PropertyValue,
)
    requires
        resolution(c.records, id) is Active,
        c.records.revision < i64::MAX - 2,
        key_fault(key@, KeyUse::Property) is None,
        value_fault(value@) is None,
    ensures
        ({
            let tombstone = seq![Mutation::TombstoneNode { node_id: id }];
            let restore = seq![Mutation::RestoreNode { node_id: id }];
            let set = seq![Mutation::SetProperty { node_id: id, key, value }];
            let hidden = applied(
                with_records(c, batch_result(c.records, tombstone)->Ok_0),
                tombstone,
            );
            let back = applied(
                with_records(hidden, batch_result(hidden.records, restore)->Ok_0),
                restore,
            );
            let again = batch_result(back.records, restore);
            &&& batch_result(c.records, tombstone) is Ok
            &&& resolution(hidden.records, id) is Tombstoned
            &&& batch_result(hidden.records, set) is Err
            &&& batch_result(hidden.records, set)->Err_0 is Conflict
            &&& batch_result(hidden.records, restore) is Ok
            &&& resolution(back.records, id) is Active
            &&& back.records.nodes[id].properties == c.records.nodes[id].properties
            &&& relationship_list(back.records, id, RelationshipDirection::Either, None)
                == relationship_list(c.records, id, RelationshipDirection::Either, None)
            &&& again is Err
            &&& again->Err_0 is Conflict
        }),
{
    let tombstone = seq![Mutation::TombstoneNode { node_id: id }];
    let restore = seq![Mutation::RestoreNode { node_id: id }];
    law_restore_undoes_tombstone(c.records, id);
    let t = batch_result(c.records, tombstone)->Ok_0;
    assert(t.revision == c.records.revision + 1) by {
        reveal(mutate);
        reveal_with_fuel(mutate_all, 2);
    }
    assert(!purges_any(tombstone)) by {
        assert(tombstone.len() == 1);
    }
    assert(!purges_any(restore)) by {
        assert(restore.len() == 1);
    }
    let hidden = applied(with_records(c, t), tombstone);
    assert(hidden.records == t || hidden.records == pruned(t));
    law_tombstoned_nodes_take_no_property(hidden.records, id, key, value);
    law_only_tombstoned_nodes_are_restored(hidden.records, id);
    let r = batch_result(hidden.records, restore)->Ok_0;
    assert(r.nodes[id].properties == hidden.records.nodes[id].properties && r.relationships
        == hidden.records.relationships && r.revision == hidden.records.revision + 1) by {
        reveal(mutate);
        reveal_with_fuel(mutate_all, 2);
    }
    let back = applied(with_records(hidden, r), restore);
    assert(back.records == r || back.records == pruned(r));
    law_only_tombstoned_nodes_are_restored(back.records, id);
}

/// The sync status tells both revisions, and the Index is current exactly where they are the same.
pub proof fn law_sync_tells_both_revisions(c: CoreModel)
    ensures
        sync_of(c).record_revision == c.records.revision,
        sync_of(c).applied_revision == c.index.applied_revision,
        sync_of(c).state is Current <==> c.records.revision == c.index.applied_revision,
        sync_of(c).state is Stale <==> c.records.revision != c.index.applied_revision,
{
}

/// A core takes writes exactly where its root is not protected, or shows what it was configured with.
pub proof fn law_writes_need_the_boundary(c: CoreModel)
    ensures
        match c.boundary {
            StorageBoundary::Unprotected => write_fault(c) is None,
            StorageBoundary::Protected { library_root: _, root_fingerprint, sentinel } => write_fault(
                c,
            ) is None <==> c.evidence.root_is_dir && c.evidence.fingerprint is Ok
                && c.evidence.fingerprint->Ok_0@ == root_fingerprint@ && c.evidence.sentinel is Ok
                && c.evidence.sentinel->Ok_0@ == sentinel@,
        },
{
}

/// Whether two stores hold the same facts, at the same revision.
pub open spec fn same_facts(a: RecordModel, b: RecordModel) -> bool {
    &&& a.revision == b.revision
    &&& a.issued == b.issued
    &&& a.nodes == b.nodes
    &&& a.relationships == b.relationships
    &&& a.property_definitions == b.property_definitions
    &&& a.relationship_definitions == b.relationship_definitions
}

/// A write that a core answers with an error leaves it as it was: with the fault of its boundary where
/// that refuses writes, and else with that of the Record Store. One that it answers otherwise was
/// allowed by the boundary, and the facts of the store are then those that the write makes.
pub proof fn law_core_answers_with_the_commit<T>(
    r: Result<T, CoreError>,
    before: CoreModel,
    after: CoreModel,
    expected: Result<RecordModel, ErrorView>,
)
    requires
        answered(r, before, after, expected),
    ensures
        match r {
            Ok(_) => {
                &&& write_fault(before) is None
                &&& expected is Ok
                &&& same_facts(after.records, expected->Ok_0)
                &&& after.boundary == before.boundary
                &&& after.evidence == before.evidence
                &&& after.manifest == before.manifest
            },
            Err(e) => {
                &&& after == before
                &&& write_fault(before) is Some ==> write_fault(before) == Some(e@)
                &&& write_fault(before) is None ==> expected == Err::<RecordModel, ErrorView>(e@)
            },
        },
{
}

/// The same of a batch, which tells its revision and how many changes it made. A batch that purges
/// leaves the Index and asks for a barrier at its revision; any other is followed at once, by the Index
/// and by what recovery has to do.
pub proof fn law_core_answers_batches(
    r: Result<Commit, CoreError>,
    before: CoreModel,
    after: CoreModel,
    mutations: Seq<Mutation>,
    m: RecordModel,
)
    requires
        batch_answered(r, before, after, mutations, committed(with_records(before, m), mutations)),
        batch_result(before.records, mutations) == Ok::<RecordModel, ErrorView>(m),
    ensures
        match r {
            Ok(commit) => {
                &&& write_fault(before) is None
                &&& commit.revision == m.revision
                &&& commit.change_count == mutations.len()
                &&& same_facts(after.records, m)
                &&& (exists|i: int| 0 <= i < mutations.len() && #[trigger] mutations[i] is PurgeNode)
                    ==> after.index == before.index && after.recovery_work is Reset
                    && after.recovery_work->purge_barrier_revision == Some(m.revision)
                &&& !(exists|i: int|
                    0 <= i < mutations.len() && #[trigger] mutations[i] is PurgeNode)
                    && before.manifest is Ok ==> after.recovery_work == catch_up_action(
                    before.manifest->Ok_0@,
                    m,
                )
            },
            Err(e) => after == before && write_fault(before) == Some(e@),
        },
{
}

/// Following a commit changes the Index only to one that is reconciled with the store, and then only
/// where nothing stands against that; the facts of the store stay in any case.
pub proof fn law_following_reconciles_the_index(c: CoreModel)
    ensures
        same_facts(synced(c).records, c.records),
        reconcile_fault(c.index, c.records, c.failure) is None ==> synced(c).index == reconciled(
            c.index,
            c.records,
        ),
        reconcile_fault(c.index, c.records, c.failure) is Some ==> synced(c).index == c.index
            && synced(c).records == c.records,
        synced(c).recovery_work == c.recovery_work,
        synced(c).manifest == c.manifest,
{
}

/// Applying a batch leaves the facts that it makes, whatever the Index and recovery make of them; and
/// where it purges, recovery is to begin anew behind a barrier at its revision.
pub proof fn law_applying_leaves_the_facts(c: CoreModel, mutations: Seq<Mutation>)
    ensures
        same_facts(applied(c, mutations).records, c.records),
        same_facts(committed(c, mutations).records, c.records),
        same_facts(settled(c).records, c.records),
        (exists|i: int| 0 <= i < mutations.len() && #[trigger] mutations[i] is PurgeNode)
            ==> applied(c, mutations).recovery_work is Reset && applied(
            c,
            mutations,
        ).recovery_work->purge_barrier_revision == Some(c.records.revision),
        !(exists|i: int| 0 <= i < mutations.len() && #[trigger] mutations[i] is PurgeNode)
            ==> applied(c, mutations) == settled(c) && committed(c, mutations) == settled(c),
        reconcile_fault(c.index, c.records, c.failure) is None ==> applied(c, mutations).index
            == reconciled(c.index, c.records),
        with_records(c, c.records) == c,
        with_records(c, applied(c, mutations).records).index == c.index,
{
    assert(with_records(c, c.records) =~= c);
}

} // verus!
