//! What recovery and the Index make of a journal that is pruned while the store goes on.
use vstd::prelude::*;
use crate::api::{IndexRebuildReason, ReconcileOutcome};
use crate::error::ErrorView;
use crate::id::NodeId;
use crate::index::model::IndexModel;
use crate::index::projection::{
    law_patch_keeps_index_current, law_rebuild_shows_records, rebuilt_index, reconcile_fault,
    reconcile_outcome, reconciled,
};
use crate::record_store::frames::{written_of, FrameView};
use crate::record_store::history::{
    law_patch_reproduces, lemma_filter_all, lemma_filter_comes_of, lemma_filter_holds,
    lemma_filter_twice, without_journal,
};
use crate::record_store::laws::{commits, consistent, covers, lemma_covers_chain};
use crate::record_store::model::{ChangeView, RecordModel};
use crate::record_store::projection::{
    changes_after, delta_since, issued_in, patch_of, pruned, DeltaView, PatchView,
    RECORD_CHANGE_RETENTION_REVISIONS,
};
use crate::record_store::recovery::{in_place, patched, takes};
use crate::record_store::runs::{
    fits, is_run, law_operation_keeps_the_store, law_run_keeps_the_store, Operation,
};
use crate::record_store::schema::ends_at_revision;
use crate::recovery::plan::{law_written_frames_replay, replay_result, replayed};

verus! {

/// Whether the journal of a later content no longer tells the first change since an earlier one.
spec fn forgotten(a: RecordModel, b: RecordModel) -> bool {
    b.revision > a.revision && forall|i: int|
        0 <= i < b.journal.len() ==> (#[trigger] b.journal[i]).revision != a.revision + 1
}

/// Whether the journal of a later content tells all changes since an earlier one.
spec fn tells_all(a: RecordModel, b: RecordModel) -> bool {
    covers(a, b, changes_after(b.journal, a.revision))
}

proof fn lemma_prune_tells(a: RecordModel, k: RecordModel)
    requires
        consistent(k),
        a.revision <= k.revision,
        forgotten(a, k) || tells_all(a, k),
    ensures
        forgotten(a, pruned(k)) || tells_all(a, pruned(k)),
{
    let b = pruned(k);
    if k.revision > RECORD_CHANGE_RETENTION_REVISIONS {
        let first = (k.revision - RECORD_CHANGE_RETENTION_REVISIONS + 1) as u64;
        let keep = |c: ChangeView| c.revision >= first;
        let recent = |c: ChangeView| c.revision > a.revision;
        lemma_filter_holds(k.journal, keep);
        lemma_filter_comes_of(k.journal, keep);
        if a.revision == k.revision {
            assert(changes_after(k.journal, a.revision) =~= Seq::<ChangeView>::empty()) by {
                k.journal.lemma_all_neg_filter_empty(recent);
            }
            assert(changes_after(b.journal, a.revision) =~= Seq::<ChangeView>::empty()) by {
                assert forall|i: int| 0 <= i < b.journal.len() implies !recent(
                    #[trigger] b.journal[i],
                ) by {
                    assert(k.journal.contains(b.journal[i]));
                    let j = k.journal.index_of(b.journal[i]);
                    assert(k.journal[j] == b.journal[i]);
                }
                b.journal.lemma_all_neg_filter_empty(recent);
            }
            assert(tells_all(a, b));
        } else if forgotten(a, k) {
            assert forall|i: int| 0 <= i < b.journal.len() implies (
            #[trigger] b.journal[i]).revision != a.revision + 1 by {
                assert(k.journal.contains(b.journal[i]));
                let j = k.journal.index_of(b.journal[i]);
                assert(k.journal[j] == b.journal[i]);
            }
        } else if first <= a.revision + 1 {
            assert forall|c: ChangeView| #[trigger] recent(c) implies keep(c) by {}
            lemma_filter_twice(k.journal, keep, recent);
            assert(changes_after(b.journal, a.revision) == changes_after(k.journal, a.revision));
        } else {
            assert forall|i: int| 0 <= i < b.journal.len() implies (
            #[trigger] b.journal[i]).revision != a.revision + 1 by {
                assert(keep(b.journal[i]));
            }
        }
    }
}

proof fn lemma_commit_tells(a: RecordModel, k: RecordModel, b: RecordModel, new: Seq<ChangeView>)
    requires
        commits(k, b, new),
        a.revision <= k.revision,
        forgotten(a, k) || tells_all(a, k),
    ensures
        forgotten(a, b) || tells_all(a, b),
{
    if forgotten(a, k) {
        assert forall|i: int| 0 <= i < b.journal.len() implies (#[trigger] b.journal[i]).revision
            != a.revision + 1 by {
            if i < k.journal.len() {
                assert(b.journal[i] == k.journal[i]);
            } else {
                assert(b.journal[i] == new[i - k.journal.len()]);
            }
        }
    } else {
        let recent = |c: ChangeView| c.revision > a.revision;
        lemma_filter_all(new, recent);
        Seq::filter_distributes_over_add(k.journal, new, recent);
        let before = changes_after(k.journal, a.revision);
        assert(changes_after(b.journal, a.revision) == before + new);
        lemma_covers_chain(a, k, b, before, new);
    }
}

proof fn lemma_run_tells(h: Seq<RecordModel>, ops: Seq<Operation>, from: int, to: int)
    requires
        is_run(h, ops),
        consistent(h[0]),
        ends_at_revision(h[0]),
        0 <= from <= to < h.len(),
    ensures
        forgotten(h[from], h[to]) || tells_all(h[from], h[to]),
    decreases to - from,
{
    let a = h[from];
    law_run_keeps_the_store(h, ops, 0, from);
    if from == to {
        let recent = |c: ChangeView| c.revision > a.revision;
        a.journal.lemma_all_neg_filter_empty(recent);
        let none = Seq::<ChangeView>::empty();
        assert(changes_after(a.journal, a.revision) =~= none);
        assert forall|id: NodeId| !issued_in(none).contains(id) by {}
        assert(tells_all(a, a));
    } else {
        let k = h[to - 1];
        lemma_run_tells(h, ops, from, to - 1);
        law_run_keeps_the_store(h, ops, from, to - 1);
        assert(fits(ops[to - 1]));
        law_operation_keeps_the_store(k, ops[to - 1], h[to]);
        if ops[to - 1] is Prune {
            lemma_prune_tells(a, k);
        } else {
            let b = h[to];
            let new = choose|new: Seq<ChangeView>| commits(k, b, new);
            lemma_commit_tells(a, k, b, new);
        }
    }
}

proof fn lemma_available_is_told(a: RecordModel, b: RecordModel)
    requires
        forgotten(a, b) || tells_all(a, b),
        delta_since(b, a.revision) is Available,
    ensures
        tells_all(a, b),
        a.revision < b.revision,
        delta_since(b, a.revision)->Available_0 == patch_of(
            b,
            a.revision,
            changes_after(b.journal, a.revision),
        ),
{
    let recent = |c: ChangeView| c.revision > a.revision;
    lemma_filter_comes_of(b.journal, recent);
    let first = changes_after(b.journal, a.revision)[0];
    assert(b.journal.contains(first));
    let k = b.journal.index_of(first);
    assert(b.journal[k].revision == a.revision + 1);
}

/// Over any run of operations, pruning among them, a patch that the journal still gives since an
/// earlier content turns a copy of that content into the later one, and is accepted.
pub proof fn law_run_patch_is_exact(
    h: Seq<RecordModel>,
    ops: Seq<Operation>,
    from: int,
    to: int,
    p: PatchView,
)
    requires
        is_run(h, ops),
        consistent(h[0]),
        ends_at_revision(h[0]),
        0 <= from <= to < h.len(),
        delta_since(h[to], h[from].revision) == DeltaView::Available(p),
    ensures
        takes(without_journal(h[from]), p),
        patched(without_journal(h[from]), p) == without_journal(h[to]),
{
    let a = h[from];
    let b = h[to];
    law_run_keeps_the_store(h, ops, from, to);
    lemma_run_tells(h, ops, from, to);
    lemma_available_is_told(a, b);
    law_patch_reproduces(a, b, changes_after(b.journal, a.revision));
    let k = without_journal(a);
    assert(patched(k, p) == patched(a, p));
    assert(in_place(k, p));
}

/// Whether these are patches that the journal gave at these places of a run, each going on where
/// the one before it ended.
pub open spec fn run_patches(
    h: Seq<RecordModel>,
    cuts: Seq<int>,
    patches: Seq<PatchView>,
) -> bool {
    &&& cuts.len() == patches.len() + 1
    &&& forall|i: int| 0 <= i < cuts.len() ==> 0 <= #[trigger] cuts[i] < h.len()
    &&& forall|i: int, j: int|
        0 <= i && j == i + 1 && j < cuts.len() ==> (#[trigger] cuts[i]) <= (#[trigger] cuts[j])
    &&& forall|i: int|
        0 <= i < patches.len() ==> delta_since(h[cuts[i + 1]], h[cuts[i]].revision)
            == DeltaView::Available(#[trigger] patches[i])
}

/// Recovery loses nothing although the journal is pruned: a baseline that is a copy of the store at
/// some point of a run, with the frames written of the patches that the journal gave from there on,
/// is reconstructed into exactly the content that the store had when the last of them was written.
pub proof fn law_reconstruction_survives_pruning(
    h: Seq<RecordModel>,
    ops: Seq<Operation>,
    cuts: Seq<int>,
    patches: Seq<PatchView>,
    frames: Seq<FrameView>,
    n: nat,
)
    requires
        is_run(h, ops),
        consistent(h[0]),
        ends_at_revision(h[0]),
        run_patches(h, cuts, patches),
        n <= patches.len() == frames.len(),
        forall|i: int| 0 <= i < patches.len() ==> written_of(#[trigger] frames[i], patches[i]),
    ensures
        replay_result(without_journal(h[cuts[0]]), frames, n) == Ok::<RecordModel, ErrorView>(
            without_journal(h[cuts[n as int]]),
        ),
{
    lemma_run_patches_replay(h, ops, cuts, patches, n);
    law_written_frames_replay(without_journal(h[cuts[0]]), patches, frames, n);
}

proof fn lemma_run_patches_replay(
    h: Seq<RecordModel>,
    ops: Seq<Operation>,
    cuts: Seq<int>,
    patches: Seq<PatchView>,
    n: nat,
)
    requires
        is_run(h, ops),
        consistent(h[0]),
        ends_at_revision(h[0]),
        run_patches(h, cuts, patches),
        n <= patches.len(),
    ensures
        replayed(without_journal(h[cuts[0]]), patches, n) == Some(
            without_journal(h[cuts[n as int]]),
        ),
    decreases n,
{
    if n > 0 {
        lemma_run_patches_replay(h, ops, cuts, patches, (n - 1) as nat);
        let i = n - 1;
        assert(cuts[i] <= cuts[i + 1]);
        law_run_patch_is_exact(h, ops, cuts[i], cuts[i + 1], patches[i]);
    }
}

/// An Index that showed any earlier content of a store shows it again once it is reconciled, however
/// much was committed and pruned in between: by the journal, or anew. It is current where nothing
/// was committed, follows where the journal still tells every change, and is built anew elsewhere.
pub proof fn law_index_follows_runs(
    x: IndexModel,
    h: Seq<RecordModel>,
    ops: Seq<Operation>,
    from: int,
    to: int,
)
    requires
        is_run(h, ops),
        consistent(h[0]),
        ends_at_revision(h[0]),
        0 <= from <= to < h.len(),
        x.shows(h[from]),
    ensures
        reconcile_fault(x, h[to], None) is None,
        reconciled(x, h[to]).shows(h[to]),
        reconciled(x, h[to]).applied_revision == h[to].revision,
        match reconcile_outcome(x, h[to]) {
            ReconcileOutcome::Current { revision } => revision == h[from].revision && revision
                == h[to].revision,
            ReconcileOutcome::Incremental { from_revision, to_revision, .. } => from_revision
                == h[from].revision && to_revision == h[to].revision && from_revision
                < to_revision,
            ReconcileOutcome::Rebuilt { revision, reason } => revision == h[to].revision && revision
                > h[from].revision && reason == IndexRebuildReason::JournalUnavailable
                && reconciled(x, h[to]) == rebuilt_index(h[to]),
        },
{
    let a = h[from];
    let b = h[to];
    law_run_keeps_the_store(h, ops, from, to);
    law_rebuild_shows_records(b);
    lemma_run_tells(h, ops, from, to);
    if delta_since(b, a.revision) is Available {
        lemma_available_is_told(a, b);
        law_patch_keeps_index_current(x, a, b, changes_after(b.journal, a.revision));
    } else if delta_since(b, a.revision) is Current {
        lemma_same_revision(h, ops, from, to);
    }
}

proof fn lemma_same_revision(h: Seq<RecordModel>, ops: Seq<Operation>, from: int, to: int)
    requires
        is_run(h, ops),
        consistent(h[0]),
        ends_at_revision(h[0]),
        0 <= from <= to < h.len(),
        h[from].revision == h[to].revision,
    ensures
        without_journal(h[from]) == without_journal(h[to]),
    decreases to - from,
{
    if from < to {
        law_run_keeps_the_store(h, ops, from, to - 1);
        law_run_keeps_the_store(h, ops, 0, to - 1);
        assert(fits(ops[to - 1]));
        law_operation_keeps_the_store(h[to - 1], ops[to - 1], h[to]);
        if !(ops[to - 1] is Prune) {
            let k = h[to - 1];
            let b = h[to];
            let new = choose|new: Seq<ChangeView>| commits(k, b, new);
            assert(commits(k, b, new));
        }
        lemma_same_revision(h, ops, from, to - 1);
    }
}

} // verus!
