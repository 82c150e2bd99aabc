//! What recovery decides, told of the manifest, of what was read, and of the live store.
use vstd::prelude::*;
use crate::cursor::{lemma_byte_len_ascii, lemma_decimal_text};
use crate::error::{message_of, CoreError, ErrorView};
use crate::id::NodeId;
use crate::record_store::history::{lemma_filter_comes_of, lemma_filter_holds, lemma_filter_takes};
use crate::record_store::model::RecordModel;
use crate::record_store::projection::{delta_since, DeltaView, PatchView};
use crate::recovery::artifacts::{
    artifact_fault, checksum_of, filename_fault, manifest_fault, path_so_far, segment_name,
    sha256_of, BaselineView, ManifestView, RecoveryManifest, RecoverySegment, SegmentView,
};
use crate::recovery::files::left_by_reset;
use crate::recovery::laws::lemma_by_age;
use crate::recovery::manager::{
    appended, by_age, catch_up_action, due, ending_after, initial_action, newest, next_slot,
    reconcile_action, reconstruction_action, reconstruction_note, reset_manifest, rotated,
    status_of, step_after, step_before, ActionView,
};
use crate::recovery::plan::{
    baseline_order, best_result, plan_result, segment_order, try_baselines, walk, BaselineFacts,
    PlanView, RecoveryPlan, SegmentPlace,
};
use crate::recovery::repair::{
    baseline_places, lemma_baseline_order, lemma_segment_order, lemma_try_baselines, segment_places,
};
use crate::text::{
    decimal_of, digits_value, law_decimal_round_trip, law_hex_round_trip, padded_decimal_of,
};

verus! {

/// Whether a patch says of some Node that it is gone.
pub open spec fn takes_a_node_away(p: PatchView) -> bool {
    exists|id: NodeId| #[trigger] p.nodes.dom().contains(id) && p.nodes[id] is None
}

/// Catching up does nothing exactly where the material stands at the live revision. Material that is
/// ahead, or that the journal does not reach back to, is made anew, with the barrier it had. Where the
/// journal tells what changed, a segment from the material's revision to the live one is added; but
/// where a Node was purged in between, all is made anew behind a barrier at the live revision.
pub proof fn law_catching_up(m: ManifestView, live: RecordModel)
    ensures
        ({
            let action = catch_up_action(m, live);
            &&& action is Nothing <==> m.recovery_revision == live.revision
            &&& m.recovery_revision > live.revision ==> action is Reset
                && action->purge_barrier_revision == m.purge_barrier_revision
            &&& m.recovery_revision < live.revision ==> match delta_since(
                live,
                m.recovery_revision,
            ) {
                DeltaView::Available(p) => {
                    &&& takes_a_node_away(p) <==> action is Reset
                    &&& takes_a_node_away(p) ==> action->purge_barrier_revision == Some(
                        live.revision,
                    )
                    &&& !takes_a_node_away(p) ==> action == ActionView::Append(p)
                        && p.from_revision == m.recovery_revision && p.target_revision
                        == live.revision
                },
                _ => action is Reset && action->purge_barrier_revision
                    == m.purge_barrier_revision,
            }
        }),
{
    match delta_since(live, m.recovery_revision) {
        DeltaView::Available(p) => {
            if takes_a_node_away(p) {
                let id = choose|id: NodeId| #[trigger]
                    p.nodes.dom().contains(id) && p.nodes[id] is None;
                assert(crate::index::projection::gone(p, id));
            }
            if crate::recovery::manager::purges(p) {
                let id = choose|id: NodeId| #[trigger] crate::index::projection::gone(p, id);
                assert(p.nodes.dom().contains(id));
            }
        },
        _ => {},
    }
}

/// Reconciling makes the material anew, with the barrier it had, exactly where it does not reach the
/// revision that it promises; and otherwise catches up.
pub proof fn law_reconciling(
    m: ManifestView,
    live: RecordModel,
    best: Result<RecoveryPlan, CoreError>,
)
    ensures
        ({
            let action = reconcile_action(m, live, best);
            let whole = best is Ok && best->Ok_0.recovered_revision == m.recovery_revision;
            &&& whole ==> action == catch_up_action(m, live)
            &&& !whole ==> action is Reset && action->purge_barrier_revision
                == m.purge_barrier_revision && action->note is Some
        }),
{
}

/// The status tells the revisions and counts of the manifest and of the best plan. Recovery is
/// current where the material can be recovered as far as it promises and that is the live revision;
/// it lags where that is less; it is degraded where less can be recovered than is promised, or more is
/// promised than is live; and it is unavailable where nothing can be recovered.
pub proof fn law_status_tells_what_can_be_recovered(
    manifest: Result<RecoveryManifest, CoreError>,
    best: Result<RecoveryPlan, CoreError>,
    live: u64,
)
    ensures
        ({
            let s = status_of(manifest, best, live);
            &&& s.live_revision == live
            &&& match manifest {
                Err(_) => {
                    &&& s.state is Unavailable
                    &&& s.manifest_revision is None
                    &&& s.recoverable_revision is None
                    &&& s.baseline_count == 0
                    &&& s.segment_count == 0
                    &&& s.purge_barrier_revision is None
                    &&& s.note is Some
                },
                Ok(m) => {
                    let promised = m.recovery_revision;
                    &&& s.manifest_revision == Some(promised)
                    &&& s.baseline_count == m.baselines@.len()
                    &&& s.segment_count == m.segments@.len()
                    &&& s.purge_barrier_revision == m.purge_barrier_revision
                    &&& s.recoverable_revision is Some <==> best is Ok
                    &&& best is Ok ==> s.recoverable_revision == Some(
                        best->Ok_0.recovered_revision,
                    )
                    &&& best is Err ==> s.note == Some(message_of(best->Err_0@))
                    &&& best is Ok && best->Ok_0.note is Some ==> s.note == Some(
                        best->Ok_0.note->0@,
                    )
                    &&& best is Ok && best->Ok_0.note is None ==> (s.note is Some
                        <==> m.last_recovery_note is Some) && (m.last_recovery_note is Some
                        ==> s.note == Some(m.last_recovery_note->0@))
                    &&& s.state is Unavailable <==> best is Err
                    &&& s.state is Current <==> best is Ok && best->Ok_0.recovered_revision
                        >= promised && promised == live
                    &&& s.state is Lagging <==> best is Ok && best->Ok_0.recovered_revision
                        >= promised && promised < live
                    &&& s.state is Degraded <==> best is Ok && (best->Ok_0.recovered_revision
                        < promised || promised > live)
                },
            }
        }),
{
}

/// A new segment is named behind those there were, and moves the promise to where it ends; nothing
/// else of the manifest changes but its generation, and its note goes.
pub proof fn law_segments_are_added(m: ManifestView, segment: SegmentView)
    requires
        m.generation < u64::MAX,
    ensures
        ({
            let n = appended(m, segment);
            &&& n.recovery_revision == segment.through_revision
            &&& n.segments.len() == m.segments.len() + 1
            &&& n.segments.last() == segment
            &&& n.segments.drop_last() == m.segments
            &&& n.baselines == m.baselines
            &&& n.generation == m.generation + 1
            &&& n.purge_barrier_revision == m.purge_barrier_revision
            &&& n.format_version == m.format_version
            &&& n.record_schema_version == m.record_schema_version
            &&& n.last_recovery_note is None
        }),
{
    assert(appended(m, segment).segments.drop_last() =~= m.segments);
}

/// Material that is made anew names its one baseline and nothing else, and promises that baseline's
/// revision.
pub proof fn law_resets_begin_anew(
    generation: u64,
    baseline: BaselineView,
    barrier: Option<u64>,
    note: Option<Seq<char>>,
)
    ensures
        ({
            let m = reset_manifest(generation, baseline, barrier, note);
            &&& m.baselines.len() == 1
            &&& m.baselines[0] == baseline
            &&& m.segments.len() == 0
            &&& m.recovery_revision == baseline.revision
            &&& m.purge_barrier_revision == barrier
            &&& m.generation == generation
            &&& m.last_recovery_note == note
        }),
{
}

proof fn lemma_newest_is_greatest(baselines: Seq<BaselineView>)
    ensures
        forall|i: int|
            0 <= i < baselines.len() ==> (#[trigger] baselines[i]).revision <= newest(baselines),
        baselines.len() == 0 ==> newest(baselines) == 0,
        baselines.len() > 0 ==> newest(baselines) == 0 || exists|i: int|
            0 <= i < baselines.len() && (#[trigger] baselines[i]).revision == newest(baselines),
    decreases baselines.len(),
{
    if baselines.len() > 0 {
        let rest = baselines.drop_last();
        lemma_newest_is_greatest(rest);
        assert forall|i: int| 0 <= i < baselines.len() implies (#[trigger] baselines[i]).revision
            <= newest(baselines) by {
            if i < rest.len() {
                assert(rest[i] == baselines[i]);
            }
        }
        if newest(baselines) != 0 {
            if baselines.last().revision == newest(baselines) {
                assert(baselines[baselines.len() - 1].revision == newest(baselines));
            } else {
                let i = choose|i: int|
                    0 <= i < rest.len() && (#[trigger] rest[i]).revision == newest(rest);
                assert(baselines[i].revision == newest(baselines));
            }
        }
    }
}

/// A new baseline is due exactly where at least 64 segments end after the newest one: one more segment
/// that ends after it counts one more, one that does not counts none.
pub proof fn law_baselines_come_due(m: ManifestView, segment: SegmentView, revision: u64)
    ensures
        due(m) <==> ending_after(m.segments, newest(m.baselines)) >= 64,
        ending_after(Seq::empty(), revision) == 0,
        ending_after(m.segments.push(segment), revision) == ending_after(m.segments, revision) + (
        if segment.through_revision > revision {
            1int
        } else {
            0int
        }),
        forall|i: int|
            0 <= i < m.baselines.len() ==> (#[trigger] m.baselines[i]).revision <= newest(
                m.baselines,
            ),
        newest(m.baselines) == 0 || exists|i: int|
            0 <= i < m.baselines.len() && (#[trigger] m.baselines[i]).revision == newest(
                m.baselines,
            ),
{
    lemma_newest_is_greatest(m.baselines);
    let later = |s: SegmentView| s.through_revision > revision;
    m.segments.lemma_filter_push(segment, later);
    assert(Seq::<SegmentView>::empty().filter(later).len() == 0) by {
        reveal(Seq::filter);
    }
}

/// A new baseline takes the place of the one with its name; of more than two the oldest goes; they
/// stand by age. Segments stay exactly where they end after the oldest baseline that is left.
pub proof fn law_baselines_rotate(m: ManifestView, slot: Seq<char>, new: BaselineView)
    requires
        m.baselines.len() <= 2,
        m.generation < u64::MAX,
        forall|i: int| 0 <= i < m.baselines.len() ==> (#[trigger] m.baselines[i]).revision
            <= new.revision,
        new.filename == slot,
    ensures
        ({
            let n = rotated(m, slot, new);
            &&& 1 <= n.baselines.len() <= 2
            &&& n.baselines.last().revision == new.revision
            &&& n.baselines.contains(new) || n.baselines.len() == 2
            &&& forall|i: int|
                0 <= i < n.baselines.len() ==> (#[trigger] n.baselines[i]) == new || (
                m.baselines.contains(n.baselines[i]) && n.baselines[i].filename != slot)
            &&& forall|i: int, j: int|
                0 <= i < j < n.baselines.len() ==> (#[trigger] n.baselines[i]).revision <= (
                #[trigger] n.baselines[j]).revision
            &&& forall|i: int|
                0 <= i < n.segments.len() ==> m.segments.contains(#[trigger] n.segments[i])
                    && n.segments[i].through_revision > n.baselines[0].revision
            &&& forall|i: int|
                0 <= i < m.segments.len() && (#[trigger] m.segments[i]).through_revision
                    > n.baselines[0].revision ==> n.segments.contains(m.segments[i])
            &&& n.generation == m.generation + 1
            &&& n.recovery_revision == m.recovery_revision
            &&& n.purge_barrier_revision == m.purge_barrier_revision
        }),
{
    let others = |b: BaselineView| b.filename != slot;
    let kept = m.baselines.filter(others);
    m.baselines.lemma_filter_len(others);
    lemma_filter_comes_of(m.baselines, others);
    lemma_filter_holds(m.baselines, others);
    let all = kept.push(new);
    lemma_by_age(all);
    let sorted = by_age(all);
    assert forall|i: int| 0 <= i < all.len() implies (#[trigger] all[i]).revision <= new.revision
        && (all[i] == new || (m.baselines.contains(all[i]) && all[i].filename != slot)) by {
        if i < kept.len() {
            assert(all[i] == kept[i]);
            assert(m.baselines.contains(kept[i]));
            let j = m.baselines.index_of(kept[i]);
            assert(m.baselines[j].revision <= new.revision);
        }
    }
    assert forall|i: int| 0 <= i < sorted.len() implies (#[trigger] sorted[i]).revision
        <= new.revision && (sorted[i] == new || (m.baselines.contains(sorted[i])
        && sorted[i].filename != slot)) by {
        assert(all.contains(sorted[i]));
        let k = all.index_of(sorted[i]);
        assert(all[k] == sorted[i]);
    }
    assert(all[all.len() - 1] == new);
    assert(sorted.contains(new));
    let at = sorted.index_of(new);
    assert(sorted[at] == new);
    assert(sorted.last().revision == new.revision) by {
        if at < sorted.len() - 1 {
            assert(sorted[at].revision <= sorted[sorted.len() - 1].revision);
        }
    }
    let n = rotated(m, slot, new);
    let first = n.baselines[0].revision;
    let later = |s: SegmentView| s.through_revision > first;
    assert(n.segments == m.segments.filter(later));
    lemma_filter_comes_of(m.segments, later);
    lemma_filter_holds(m.segments, later);
    assert forall|i: int| 0 <= i < m.segments.len() && (#[trigger] m.segments[i]).through_revision
        > first implies n.segments.contains(m.segments[i]) by {
        lemma_filter_takes(m.segments, later, i);
    }
    if all.len() > 2 {
        assert(n.baselines =~= sorted.subrange(1, sorted.len() as int));
        assert(n.baselines.last() == sorted.last());
        if at > 0 {
            assert(n.baselines[at - 1] == new);
        }
    }
}

/// The next baseline is written to the second file where that is not named yet, and else to that of a
/// baseline than which none is older.
pub proof fn law_baselines_take_turns(baselines: Seq<BaselineView>)
    requires
        1 <= baselines.len() <= usize::MAX,
    ensures
        ({
            let second = "baseline-B.sqlite"@;
            let named = exists|i: int|
                0 <= i < baselines.len() && (#[trigger] baselines[i]).filename == second;
            &&& !named ==> next_slot(baselines) == second
            &&& named ==> exists|i: int|
                0 <= i < baselines.len() && (#[trigger] baselines[i]).filename == next_slot(
                    baselines,
                ) && forall|j: int|
                    0 <= j < baselines.len() ==> baselines[i].revision <= (
                    #[trigger] baselines[j]).revision
        }),
{
    lemma_by_age(baselines);
    let first = by_age(baselines)[0];
    assert(baselines.contains(first));
    let i = baselines.index_of(first);
    assert forall|j: int| 0 <= j < baselines.len() implies baselines[i].revision <= (
    #[trigger] baselines[j]).revision by {
        assert(by_age(baselines).contains(baselines[j]));
        let k = by_age(baselines).index_of(baselines[j]);
        assert(by_age(baselines)[k] == baselines[j]);
        if k > 0 {
            assert(by_age(baselines)[0].revision <= by_age(baselines)[k].revision);
        }
    }
    assert(baselines[i].filename == first.filename);
}

/// Whether segments, in this order, lead without a gap from one revision to another, each as the
/// manifest names it and as it was read.
pub open spec fn chain(
    segments: Seq<SegmentView>,
    reads: Seq<Result<RecoverySegment, CoreError>>,
    used: Seq<usize>,
    from: u64,
    to: u64,
) -> bool
    decreases used.len(),
{
    if used.len() == 0 {
        from == to
    } else {
        let i = used.last() as int;
        &&& 0 <= i < segments.len()
        &&& segments[i].through_revision == to
        &&& segments[i].from_revision < to
        &&& reads[i] is Ok
        &&& reads[i]->Ok_0.from_revision == segments[i].from_revision
        &&& reads[i]->Ok_0.through_revision == to
        &&& reads[i]->Ok_0.patch.from_revision == segments[i].from_revision
        &&& reads[i]->Ok_0.patch.target_revision == to
        &&& chain(segments, reads, used.drop_last(), from, segments[i].from_revision)
    }
}

proof fn lemma_walk_chains(
    segments: Seq<SegmentView>,
    order: Seq<SegmentPlace>,
    reads: Seq<Result<RecoverySegment, CoreError>>,
    n: nat,
    begin: u64,
)
    requires
        n <= order.len(),
        forall|i: int|
            0 <= i < order.len() ==> (#[trigger] order[i]).index < segments.len()
                && order[i].from_revision == segments[order[i].index as int].from_revision
                && order[i].through_revision == segments[order[i].index as int].through_revision,
    ensures
        ({
            let w = walk(order, reads, n, begin);
            &&& w.cursor >= begin
            &&& chain(segments, reads, w.used, begin, w.cursor)
            &&& w.note is None ==> forall|i: int|
                0 <= i < n ==> (#[trigger] order[i]).through_revision <= w.cursor
        }),
    decreases n,
{
    if n > 0 {
        lemma_walk_chains(segments, order, reads, (n - 1) as nat, begin);
        let before = walk(order, reads, (n - 1) as nat, begin);
        let w = walk(order, reads, n, begin);
        let p = order[n - 1];
        assert(p.index < segments.len());
        if w.used != before.used {
            assert(w.used.drop_last() =~= before.used);
            assert(w.used.last() == p.index);
        }
        if w.note is None {
            assert forall|i: int| 0 <= i < n implies (#[trigger] order[i]).through_revision
                <= w.cursor by {}
        }
    }
}

/// A plan begins at its baseline, whose file must be whole and of the revision that the manifest
/// names. Its segments lead from there without a gap to the revision it recovers. Where it says
/// nothing of a boundary, no segment of the manifest ends later.
pub proof fn law_plans_lead_without_a_gap(
    m: ManifestView,
    baseline: BaselineView,
    found: Result<BaselineFacts, CoreError>,
    reads: Seq<Result<RecoverySegment, CoreError>>,
)
    requires
        m.segments.len() <= usize::MAX,
    ensures
        ({
            let r = plan_result(m, baseline, found, reads);
            &&& r is Ok <==> found is Ok && found->Ok_0.integrity_ok && found->Ok_0.revision
                == baseline.revision
            &&& r is Ok ==> {
                let plan = r->Ok_0;
                &&& plan.baseline == baseline
                &&& plan.recovered_revision >= baseline.revision
                &&& chain(
                    m.segments,
                    reads,
                    plan.segments,
                    baseline.revision,
                    plan.recovered_revision,
                )
                &&& plan.note is None ==> forall|i: int|
                    0 <= i < m.segments.len() ==> (#[trigger] m.segments[i]).through_revision
                        <= plan.recovered_revision
            }
        }),
{
    lemma_segment_order(m.segments);
    let order = segment_order(m.segments);
    assert forall|i: int| 0 <= i < order.len() implies (#[trigger] order[i]).index
        < m.segments.len() && order[i].from_revision
        == m.segments[order[i].index as int].from_revision && order[i].through_revision
        == m.segments[order[i].index as int].through_revision by {
        assert(order.contains(order[i]));
    }
    lemma_walk_chains(m.segments, order, reads, order.len(), baseline.revision);
    match plan_result(m, baseline, found, reads) {
        Ok(plan) => {
            if plan.note is None {
                assert forall|i: int| 0 <= i < m.segments.len() implies (
                #[trigger] m.segments[i]).through_revision <= plan.recovered_revision by {
                    let p = SegmentPlace {
                        from_revision: m.segments[i].from_revision,
                        through_revision: m.segments[i].through_revision,
                        index: i as usize,
                    };
                    assert(segment_places(m.segments).contains(p));
                    assert(order.contains(p));
                    assert(order[order.index_of(p)] == p);
                }
            }
        },
        Err(_) => {},
    }
}

/// The best plan is one of a baseline of the manifest, and no other baseline's plan recovers more.
/// There is one exactly where the file of some baseline is whole and of the named revision.
pub proof fn law_best_plan_recovers_most(
    m: ManifestView,
    found: Seq<Result<BaselineFacts, CoreError>>,
    reads: Seq<Result<RecoverySegment, CoreError>>,
)
    requires
        m.baselines.len() <= usize::MAX,
        m.segments.len() <= usize::MAX,
    ensures
        ({
            let r = best_result(m, found, reads);
            &&& r is Ok <==> exists|i: int|
                0 <= i < m.baselines.len() && (#[trigger] found[i]) is Ok && found[i]->Ok_0.integrity_ok
                    && found[i]->Ok_0.revision == m.baselines[i].revision
            &&& r is Ok ==> exists|i: int|
                0 <= i < m.baselines.len() && same_but_note(
                    plan_result(m, #[trigger] m.baselines[i], found[i], reads),
                    r->Ok_0,
                )
            &&& r is Ok ==> forall|i: int|
                0 <= i < m.baselines.len() && plan_result(
                    m,
                    #[trigger] m.baselines[i],
                    found[i],
                    reads,
                ) is Ok ==> plan_result(m, m.baselines[i], found[i], reads)->Ok_0.recovered_revision
                    <= r->Ok_0.recovered_revision
        }),
{
    let order = baseline_order(m.baselines);
    lemma_baseline_order(m.baselines);
    lemma_try_baselines(m, order, found, reads, order.len());
    let t = try_baselines(m, order, found, reads, order.len());
    let r = best_result(m, found, reads);
    assert forall|j: int| 0 <= j < order.len() implies (#[trigger] order[j]).index
        < m.baselines.len() by {
        assert(order.contains(order[j]));
    }
    assert forall|i: int| 0 <= i < m.baselines.len() implies match plan_result(
        m,
        #[trigger] m.baselines[i],
        found[i],
        reads,
    ) {
        Ok(plan) => t.best is Some && plan.recovered_revision <= t.best->0.recovered_revision,
        Err(_) => true,
    } by {
        let p = crate::recovery::plan::BaselinePlace {
            revision: m.baselines[i].revision,
            index: i as usize,
        };
        assert(baseline_places(m.baselines).contains(p));
        assert(order.contains(p));
        let j = order.index_of(p);
        assert(order[j].index == i);
    }
    if r is Ok {
        let j = choose|j: int|
            0 <= j < order.len() && plan_result(
                m,
                m.baselines[(#[trigger] order[j]).index as int],
                found[order[j].index as int],
                reads,
            ) == Ok::<PlanView, ErrorView>(t.best->0);
        let i = order[j].index as int;
        assert(same_but_note(plan_result(m, m.baselines[i], found[i], reads), r->Ok_0));
        assert(found[i] is Ok);
    }
    if exists|i: int|
        0 <= i < m.baselines.len() && (#[trigger] found[i]) is Ok && found[i]->Ok_0.integrity_ok
            && found[i]->Ok_0.revision == m.baselines[i].revision {
        let i = choose|i: int|
            0 <= i < m.baselines.len() && (#[trigger] found[i]) is Ok
                && found[i]->Ok_0.integrity_ok && found[i]->Ok_0.revision
                == m.baselines[i].revision;
        assert(plan_result(m, m.baselines[i], found[i], reads) is Ok);
    }
}

/// Whether a plan was found, and is this one but for what it says.
pub open spec fn same_but_note(r: Result<PlanView, ErrorView>, plan: PlanView) -> bool {
    &&& r is Ok
    &&& r->Ok_0.baseline == plan.baseline
    &&& r->Ok_0.segments == plan.segments
    &&& r->Ok_0.recovered_revision == plan.recovered_revision
    &&& r->Ok_0.note is Some ==> plan.note == r->Ok_0.note
}

/// An artifact is taken exactly where it has the size and the checksum that the manifest names. A
/// manifest is taken exactly where its checksum fits, its versions are the supported ones, it names at
/// most two baselines and 128 segments, and all the names are local.
pub proof fn law_material_is_checked(
    m: ManifestView,
    name: Seq<char>,
    length: nat,
    size: u64,
    actual: Seq<char>,
    checksum: Seq<char>,
)
    ensures
        artifact_fault(name, length, actual, size, checksum) is None <==> length == size && actual
            == checksum,
        manifest_fault(m, actual, checksum) is None <==> {
            &&& actual == checksum
            &&& m.format_version == 1
            &&& m.record_schema_version == 5
            &&& m.baselines.len() <= 2
            &&& m.segments.len() <= 128
            &&& forall|i: int|
                0 <= i < m.baselines.len() ==> filename_fault((#[trigger] m.baselines[i]).filename)
                    is None
            &&& forall|i: int|
                0 <= i < m.segments.len() ==> filename_fault((#[trigger] m.segments[i]).filename)
                    is None
        },
        artifact_fault(name, length, actual, size, checksum) is Some ==> artifact_fault(
            name,
            length,
            actual,
            size,
            checksum,
        )->0 is CorruptStore,
        manifest_fault(m, actual, checksum) is Some ==> manifest_fault(m, actual, checksum)->0
            is CorruptStore,
{
}

proof fn lemma_plain_piece(name: Seq<char>)
    requires
        !name.contains('/'),
    ensures
        path_so_far(name) == (0nat, name, true),
    decreases name.len(),
{
    if name.len() > 0 {
        let rest = name.drop_last();
        assert(!rest.contains('/')) by {
            if rest.contains('/') {
                let i = rest.index_of('/');
                assert(name[i] == '/');
            }
        }
        lemma_plain_piece(rest);
        assert(name[name.len() - 1] == name.last());
        assert(rest.push(name.last()) =~= name);
    } else {
        assert(name =~= Seq::empty());
    }
}

proof fn lemma_piece_behind(directory: Seq<char>, name: Seq<char>)
    requires
        directory.len() > 0,
        !directory.contains('/'),
        !name.contains('/'),
    ensures
        path_so_far(directory + seq!['/'] + name) == (1nat, name, false),
    decreases name.len(),
{
    let path = directory + seq!['/'] + name;
    if name.len() == 0 {
        assert(path.drop_last() =~= directory);
        assert(path.last() == '/');
        lemma_plain_piece(directory);
        assert(name =~= Seq::empty());
    } else {
        let rest = name.drop_last();
        assert(!rest.contains('/')) by {
            if rest.contains('/') {
                let i = rest.index_of('/');
                assert(name[i] == '/');
            }
        }
        lemma_piece_behind(directory, rest);
        assert(path.drop_last() =~= directory + seq!['/'] + rest);
        assert(path.last() == name.last());
        assert(name[name.len() - 1] == name.last());
        assert(rest.push(name.last()) =~= name);
    }
}

/// A name is local where it is not empty and has no slash; the name of something within a directory,
/// or within the root, is not. Nothing behind a slash, or a single dot, names the directory itself.
pub proof fn law_names_are_local(directory: Seq<char>, name: Seq<char>)
    requires
        !directory.contains('/'),
        !name.contains('/'),
        directory.len() > 0,
    ensures
        filename_fault(name) is None <==> name.len() > 0,
        name.len() > 0 && name != seq!['.'] ==> filename_fault(directory + seq!['/'] + name)
            is Some,
        name.len() == 0 || name == seq!['.'] ==> filename_fault(directory + seq!['/'] + name)
            is None,
        name.len() > 0 && name != seq!['.'] ==> filename_fault(seq!['/'] + name) is Some,
        filename_fault(name) is Some ==> filename_fault(name)->0 is CorruptStore,
{
    lemma_plain_piece(name);
    lemma_piece_behind(directory, name);
    lemma_piece_in_root(name);
}

proof fn lemma_piece_in_root(name: Seq<char>)
    requires
        !name.contains('/'),
    ensures
        path_so_far(seq!['/'] + name) == (1nat, name, false),
    decreases name.len(),
{
    let path = seq!['/'] + name;
    if name.len() == 0 {
        reveal_with_fuel(path_so_far, 2);
        assert(path.drop_last() =~= Seq::empty());
        assert(path.last() == '/');
        assert(path.len() == 1);
        assert(name =~= Seq::empty());
    } else {
        let rest = name.drop_last();
        assert(!rest.contains('/')) by {
            if rest.contains('/') {
                let i = rest.index_of('/');
                assert(name[i] == '/');
            }
        }
        lemma_piece_in_root(rest);
        assert(path.drop_last() =~= seq!['/'] + rest);
        assert(path.last() == name.last());
        assert(name[name.len() - 1] == name.last());
        assert(rest.push(name.last()) =~= name);
    }
}

/// What is said of a reconstruction is what its plan says, and else says something exactly where less
/// was recovered than the manifest promised.
pub proof fn law_reconstructions_tell_their_boundary(m: ManifestView, plan: PlanView)
    ensures
        plan.note is Some ==> reconstruction_note(m, plan) == plan.note,
        plan.note is None ==> (reconstruction_note(m, plan) is Some <==> plan.recovered_revision
            < m.recovery_revision),
{
}

/// After a reset every baseline file goes but the one that the reset made.
pub proof fn law_resets_leave_one_baseline(name: Seq<char>)
    ensures
        left_by_reset("baseline-"@ + name + ".sqlite"@) <==> name != "A"@,
{
    reveal_strlit("baseline-");
    reveal_strlit(".sqlite");
    reveal_strlit("A");
    reveal_strlit("baseline-A.sqlite");
    let file = "baseline-"@ + name + ".sqlite"@;
    assert(file.subrange(0, 9) =~= "baseline-"@);
    assert(file.subrange(file.len() - 7, file.len() as int) =~= ".sqlite"@);
    assert("baseline-A.sqlite"@ =~= "baseline-"@ + "A"@ + ".sqlite"@);
    if file == "baseline-A.sqlite"@ {
        assert(file.len() == 17);
        assert(name.len() == 1);
        assert(name[0] == file[9]);
        assert(name =~= "A"@);
    }
}

/// A store is reconstructed before it is opened exactly where it is missing and there is material, and
/// afterwards exactly where opening it failed, there is material, and the failure was not that its
/// version is unsupported.
pub proof fn law_stores_are_reconstructed(
    record_file_exists: bool,
    manifest_exists: bool,
    opened: Result<(), CoreError>,
)
    ensures
        step_before(record_file_exists, manifest_exists) is Reconstruct <==> manifest_exists
            && !record_file_exists,
        match opened {
            Ok(_) => step_after(opened, manifest_exists) is Take,
            Err(CoreError::UnsupportedSchema { .. }) => step_after(opened, manifest_exists) is Take,
            Err(_) => step_after(opened, manifest_exists) is Reconstruct <==> manifest_exists,
        },
{
}

/// Material is made at first exactly where there is no manifest, without a barrier. After a
/// reconstruction it is made anew, and keeps the barrier exactly where what was recovered reaches it.
pub proof fn law_first_and_last_resets(has_manifest: bool, m: ManifestView, plan: PlanView)
    ensures
        initial_action(has_manifest) is Nothing <==> has_manifest,
        !has_manifest ==> initial_action(has_manifest) is Reset && initial_action(
            has_manifest,
        )->purge_barrier_revision is None,
        reconstruction_action(m, plan) is Reset,
        m.purge_barrier_revision is Some && m.purge_barrier_revision->0 <= plan.recovered_revision
            ==> reconstruction_action(m, plan)->purge_barrier_revision == m.purge_barrier_revision,
        m.purge_barrier_revision is None || m.purge_barrier_revision->0 > plan.recovered_revision
            ==> reconstruction_action(m, plan)->purge_barrier_revision is None,
        reconstruction_action(m, plan)->note == reconstruction_note(m, plan),
{
}

/// Checksums tell digests apart, and the names of segments tell apart where they begin and end.
pub proof fn law_names_tell_material_apart(
    a: Seq<u8>,
    b: Seq<u8>,
    s: (u64, u64),
    t: (u64, u64),
)
    requires
        s.0 < u64::MAX,
        t.0 < u64::MAX,
    ensures
        checksum_of(a) == checksum_of(b) ==> sha256_of(a) == sha256_of(b),
        segment_name(s.0, s.1) == segment_name(t.0, t.1) ==> s == t,
{
    law_hex_round_trip(sha256_of(a));
    law_hex_round_trip(sha256_of(b));
    lemma_width(s.0 + 1);
    lemma_width(t.0 + 1);
    lemma_width(s.1 as int);
    lemma_width(t.1 as int);
    if segment_name(s.0, s.1) == segment_name(t.0, t.1) {
        reveal_strlit("segment-");
        reveal_strlit("-");
        reveal_strlit(".json");
        let p = segment_name(s.0, s.1);
        let q = segment_name(t.0, t.1);
        assert(p.subrange(8, 28) =~= padded_decimal_of((s.0 + 1) as nat, 20));
        assert(q.subrange(8, 28) =~= padded_decimal_of((t.0 + 1) as nat, 20));
        assert(p.subrange(29, 49) =~= padded_decimal_of(s.1 as nat, 20));
        assert(q.subrange(29, 49) =~= padded_decimal_of(t.1 as nat, 20));
    }
}

proof fn lemma_zeros_in_front(digits: Seq<char>, zeros: nat)
    ensures
        digits_value(Seq::new(zeros, |i: int| '0') + digits) == digits_value(digits),
    decreases zeros, digits.len(),
{
    let front = Seq::new(zeros, |i: int| '0');
    let all = front + digits;
    if digits.len() > 0 {
        lemma_zeros_in_front(digits.drop_last(), zeros);
        assert(all.drop_last() =~= front + digits.drop_last());
        assert(all.last() == digits.last());
    } else if zeros > 0 {
        let less = (zeros - 1) as nat;
        lemma_zeros_in_front(digits, less);
        assert(all.drop_last() =~= Seq::new(less, |i: int| '0') + digits);
        assert(all.last() == '0');
    } else {
        assert(all =~= digits);
    }
}

/// Padded to twenty digits, a number has twenty digits, which give it back.
proof fn lemma_width(n: int)
    requires
        0 <= n <= u64::MAX,
    ensures
        padded_decimal_of(n as nat, 20).len() == 20,
        digits_value(padded_decimal_of(n as nat, 20)) == Some(n as nat),
{
    let digits = decimal_of(n as nat);
    law_decimal_round_trip(n as u64);
    lemma_decimal_text(n as u64);
    lemma_decimal_ascii(n as nat);
    lemma_byte_len_ascii(digits);
    let zeros = if digits.len() < 20 {
        (20 - digits.len()) as nat
    } else {
        0
    };
    lemma_zeros_in_front(digits, zeros);
    assert(digits[0] != '+');
}

proof fn lemma_decimal_ascii(n: nat)
    ensures
        vstd::utf8::is_ascii_chars(decimal_of(n)),
        decimal_of(n).len() > 0,
        decimal_of(n)[0] != '+',
    decreases n,
{
    if n >= 10 {
        lemma_decimal_ascii(n / 10);
        let head = decimal_of(n / 10);
        assert forall|i: int| 0 <= i < decimal_of(n).len() implies 0
            <= #[trigger] decimal_of(n)[i] as nat <= 127 by {
            if i < head.len() {
                assert(decimal_of(n)[i] == head[i]);
            }
        }
        assert(decimal_of(n)[0] == head[0]);
    }
}

} // verus!
