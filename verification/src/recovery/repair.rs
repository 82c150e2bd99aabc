//! What reconciling makes of recovery material that fell behind.
use vstd::prelude::*;
use crate::error::{CoreError, ErrorView};
use crate::paging::lemma_in_order_lists;
use crate::record_store::history::lemma_filter_comes_of;
use crate::record_store::model::RecordModel;
use crate::record_store::projection::{delta_since, DeltaView};
use crate::recovery::artifacts::{
    BaselineView, ManifestView, RecoveryManifest, RecoverySegment, SegmentView,
};
use crate::recovery::laws::{bounded, law_material_stays_bounded, law_reset_is_bounded};
use crate::recovery::manager::{
    appended, due, next_slot, purges, reconcile_action, reset_manifest, rotated, status_of,
    ActionView,
};
use crate::recovery::plan::{
    baseline_order, best_result, plan_result, segment_order, try_baselines, walk, walk_step,
    BaselineFacts, BaselinePlace, PlanView, RecoveryPlan, SegmentPlace,
};
use crate::table::{in_order, lemma_lists_in_order, lists, TableKey};

verus! {

/// Whether the segments of a manifest run forward.
pub open spec fn forward(m: ManifestView) -> bool {
    forall|i: int|
        0 <= i < m.segments.len() ==> (#[trigger] m.segments[i]).from_revision
            < m.segments[i].through_revision
}

/// Whether a segment that was read is the one that a manifest names.
pub open spec fn segment_sound(segment: SegmentView, read: Result<RecoverySegment, CoreError>) -> bool {
    match read {
        Ok(s) => s.from_revision == segment.from_revision && s.through_revision
            == segment.through_revision && s.patch.from_revision == segment.from_revision
            && s.patch.target_revision == segment.through_revision,
        Err(_) => false,
    }
}

/// Whether all files that a manifest names are there and are what it says.
pub open spec fn files_sound(
    m: ManifestView,
    found: Seq<Result<BaselineFacts, CoreError>>,
    reads: Seq<Result<RecoverySegment, CoreError>>,
) -> bool {
    &&& found.len() == m.baselines.len()
    &&& reads.len() == m.segments.len()
    &&& forall|i: int|
        0 <= i < found.len() ==> (#[trigger] found[i]) is Ok && found[i]->Ok_0.integrity_ok
            && found[i]->Ok_0.revision == m.baselines[i].revision
    &&& forall|i: int| 0 <= i < reads.len() ==> segment_sound(m.segments[i], #[trigger] reads[i])
}

/// Whether this is what the best plan came to.
pub open spec fn best_is(
    best: Result<RecoveryPlan, CoreError>,
    m: ManifestView,
    found: Seq<Result<BaselineFacts, CoreError>>,
    reads: Seq<Result<RecoverySegment, CoreError>>,
) -> bool {
    match best {
        Ok(plan) => best_result(m, found, reads) == Ok::<PlanView, ErrorView>(plan@),
        Err(e) => best_result(m, found, reads) == Err::<PlanView, ErrorView>(e@),
    }
}

/// The segments of a manifest, each at its place.
pub open spec fn segment_places(segments: Seq<SegmentView>) -> Set<SegmentPlace> {
    Set::new(
        |p: SegmentPlace|
            p.index < segments.len() && p.from_revision == segments[p.index as int].from_revision
                && p.through_revision == segments[p.index as int].through_revision,
    )
}

/// The baselines of a manifest, each at its place.
pub open spec fn baseline_places(baselines: Seq<BaselineView>) -> Set<BaselinePlace> {
    Set::new(
        |p: BaselinePlace|
            p.index < baselines.len() && p.revision == baselines[p.index as int].revision,
    )
}

pub(crate) proof fn lemma_segment_order(segments: Seq<SegmentView>)
    ensures
        lists::<SegmentPlace>(segment_order(segments), segment_places(segments)),
{
    let place = |i: int|
        SegmentPlace {
            from_revision: segments[i].from_revision,
            through_revision: segments[i].through_revision,
            index: i as usize,
        };
    let range = vstd::set_lib::set_int_range(0, segments.len() as int);
    vstd::set_lib::lemma_int_range(0, segments.len() as int);
    range.lemma_map_finite(place);
    let all = range.map(place);
    assert forall|p: SegmentPlace| segment_places(segments).contains(p) implies all.contains(p) by {
        assert(range.contains(p.index as int));
        assert(place(p.index as int) == p);
    }
    vstd::set_lib::lemma_set_subset_finite(all, segment_places(segments));
    lemma_in_order_lists::<SegmentPlace>(segment_places(segments));
    assert(segment_order(segments) == in_order::<SegmentPlace>(segment_places(segments)));
}

pub(crate) proof fn lemma_baseline_order(baselines: Seq<BaselineView>)
    ensures
        lists::<BaselinePlace>(baseline_order(baselines), baseline_places(baselines)),
{
    let place = |i: int| BaselinePlace { revision: baselines[i].revision, index: i as usize };
    let range = vstd::set_lib::set_int_range(0, baselines.len() as int);
    vstd::set_lib::lemma_int_range(0, baselines.len() as int);
    range.lemma_map_finite(place);
    let all = range.map(place);
    assert forall|p: BaselinePlace| baseline_places(baselines).contains(p) implies all.contains(
        p,
    ) by {
        assert(range.contains(p.index as int));
        assert(place(p.index as int) == p);
    }
    vstd::set_lib::lemma_set_subset_finite(all, baseline_places(baselines));
    lemma_in_order_lists::<BaselinePlace>(baseline_places(baselines));
    assert(baseline_order(baselines) == in_order::<BaselinePlace>(baseline_places(baselines)));
}

/// Whether no segment at these places ends after a revision.
spec fn end_by(order: Seq<SegmentPlace>, revision: u64) -> bool {
    forall|i: int| 0 <= i < order.len() ==> (#[trigger] order[i]).through_revision <= revision
}

/// Whether what was read at these places is what the places say.
spec fn reads_sound(
    order: Seq<SegmentPlace>,
    reads: Seq<Result<RecoverySegment, CoreError>>,
) -> bool {
    forall|i: int|
        0 <= i < order.len() ==> {
            let p = #[trigger] order[i];
            segment_sound(
                SegmentView {
                    filename: Seq::empty(),
                    from_revision: p.from_revision,
                    through_revision: p.through_revision,
                    size_bytes: 0,
                    checksum_sha256: Seq::empty(),
                },
                reads[p.index as int],
            )
        }
}

proof fn lemma_walk_bounds(
    order: Seq<SegmentPlace>,
    reads: Seq<Result<RecoverySegment, CoreError>>,
    n: nat,
    begin: u64,
    end: u64,
)
    requires
        end_by(order, end),
        begin <= end,
        n <= order.len(),
    ensures
        begin <= walk(order, reads, n, begin).cursor <= end,
        walk(order, reads, n, begin).cursor == end ==> walk(order, reads, n, begin).note is None,
        begin == end ==> walk(order, reads, n, begin).used.len() == 0,
    decreases n,
{
    if n > 0 {
        lemma_walk_bounds(order, reads, (n - 1) as nat, begin, end);
        assert(order[n - 1].through_revision <= end);
    }
}

proof fn lemma_walk_same(
    order: Seq<SegmentPlace>,
    reads: Seq<Result<RecoverySegment, CoreError>>,
    others: Seq<Result<RecoverySegment, CoreError>>,
    n: nat,
    begin: u64,
)
    requires
        n <= order.len(),
        reads_sound(order, others),
        walk(order, reads, n, begin).note is None,
    ensures
        walk(order, others, n, begin) == walk(order, reads, n, begin),
    decreases n,
{
    if n > 0 {
        let w = walk(order, reads, (n - 1) as nat, begin);
        if w.note is Some {
            assert(walk(order, reads, n, begin).note is Some);
        }
        lemma_walk_same(order, reads, others, (n - 1) as nat, begin);
        let p = order[n - 1];
        assert(segment_sound(
            SegmentView {
                filename: Seq::empty(),
                from_revision: p.from_revision,
                through_revision: p.through_revision,
                size_bytes: 0,
                checksum_sha256: Seq::empty(),
            },
            others[p.index as int],
        ));
    }
}

proof fn lemma_walk_prefix(
    order: Seq<SegmentPlace>,
    longer: Seq<SegmentPlace>,
    reads: Seq<Result<RecoverySegment, CoreError>>,
    n: nat,
    begin: u64,
)
    requires
        n <= order.len() <= longer.len(),
        forall|i: int| 0 <= i < order.len() ==> longer[i] == #[trigger] order[i],
    ensures
        walk(longer, reads, n, begin) == walk(order, reads, n, begin),
    decreases n,
{
    if n > 0 {
        lemma_walk_prefix(order, longer, reads, (n - 1) as nat, begin);
        assert(longer[n - 1] == order[n - 1]);
    }
}

pub(crate) proof fn lemma_try_baselines(
    m: ManifestView,
    order: Seq<BaselinePlace>,
    found: Seq<Result<BaselineFacts, CoreError>>,
    reads: Seq<Result<RecoverySegment, CoreError>>,
    n: nat,
)
    requires
        n <= order.len(),
    ensures
        ({
            let t = try_baselines(m, order, found, reads, n);
            &&& t.best is Some ==> exists|j: int|
                0 <= j < n && plan_result(
                    m,
                    m.baselines[(#[trigger] order[j]).index as int],
                    found[order[j].index as int],
                    reads,
                ) == Ok::<PlanView, ErrorView>(t.best->0)
            &&& forall|j: int|
                0 <= j < n ==> match plan_result(
                    m,
                    m.baselines[(#[trigger] order[j]).index as int],
                    found[order[j].index as int],
                    reads,
                ) {
                    Ok(plan) => t.best is Some && plan.recovered_revision
                        <= t.best->0.recovered_revision,
                    Err(_) => true,
                }
        }),
    decreases n,
{
    if n > 0 {
        lemma_try_baselines(m, order, found, reads, (n - 1) as nat);
        let was = try_baselines(m, order, found, reads, (n - 1) as nat);
        let t = try_baselines(m, order, found, reads, n);
        let last = plan_result(
            m,
            m.baselines[order[n - 1].index as int],
            found[order[n - 1].index as int],
            reads,
        );
        if t.best is Some {
            if was.best is Some && t.best == was.best {
                let j = choose|j: int|
                    0 <= j < n - 1 && plan_result(
                        m,
                        m.baselines[(#[trigger] order[j]).index as int],
                        found[order[j].index as int],
                        reads,
                    ) == Ok::<PlanView, ErrorView>(was.best->0);
                assert(order[j].index == order[j].index);
            } else {
                assert(last == Ok::<PlanView, ErrorView>(t.best->0));
                assert(order[n - 1].index == order[n - 1].index);
            }
        }
    }
}

/// Whether, with sound files, the segments of a manifest lead from one of its baselines to the
/// revision that it promises.
spec fn leads_to_end(m: ManifestView, i: int, reads: Seq<Result<RecoverySegment, CoreError>>) -> bool {
    let order = segment_order(m.segments);
    0 <= i < m.baselines.len() && walk(
        order,
        reads,
        order.len(),
        m.baselines[i].revision,
    ).cursor == m.recovery_revision
}

/// Whether a manifest names nothing after the revision that it promises.
pub open spec fn promises(m: ManifestView) -> bool {
    &&& forall|i: int|
        0 <= i < m.baselines.len() ==> (#[trigger] m.baselines[i]).revision <= m.recovery_revision
    &&& forall|i: int|
        0 <= i < m.segments.len() ==> (#[trigger] m.segments[i]).through_revision
            <= m.recovery_revision
}

proof fn lemma_order_facts(m: ManifestView, reads: Seq<Result<RecoverySegment, CoreError>>)
    requires
        promises(m),
    ensures
        end_by(segment_order(m.segments), m.recovery_revision),
        forall|i: int|
            0 <= i < segment_order(m.segments).len() ==> (#[trigger] segment_order(
                m.segments,
            )[i]).index < m.segments.len(),
        (reads.len() == m.segments.len() && forall|i: int|
            0 <= i < reads.len() ==> segment_sound(m.segments[i], #[trigger] reads[i]))
            ==> reads_sound(segment_order(m.segments), reads),
{
    let order = segment_order(m.segments);
    lemma_segment_order(m.segments);
    assert forall|i: int| 0 <= i < order.len() implies segment_places(m.segments).contains(
        #[trigger] order[i],
    ) by {
        assert(order.contains(order[i]));
    }
    assert forall|i: int| 0 <= i < order.len() implies (#[trigger] order[i]).through_revision
        <= m.recovery_revision && order[i].index < m.segments.len() by {
        assert(segment_places(m.segments).contains(order[i]));
        assert(m.segments[order[i].index as int].through_revision <= m.recovery_revision);
    }
    if reads.len() == m.segments.len() && forall|i: int|
        0 <= i < reads.len() ==> segment_sound(m.segments[i], #[trigger] reads[i]) {
        assert forall|i: int| 0 <= i < order.len() implies {
            let p = #[trigger] order[i];
            segment_sound(
                SegmentView {
                    filename: Seq::empty(),
                    from_revision: p.from_revision,
                    through_revision: p.through_revision,
                    size_bytes: 0,
                    checksum_sha256: Seq::empty(),
                },
                reads[p.index as int],
            )
        } by {
            assert(segment_places(m.segments).contains(order[i]));
            assert(segment_sound(
                m.segments[order[i].index as int],
                reads[order[i].index as int],
            ));
        }
    }
}

/// Where the files are sound and some baseline leads to the end, the best plan reaches the end.
proof fn lemma_best_reaches(
    m: ManifestView,
    i: int,
    some: Seq<Result<RecoverySegment, CoreError>>,
    found: Seq<Result<BaselineFacts, CoreError>>,
    reads: Seq<Result<RecoverySegment, CoreError>>,
)
    requires
        promises(m),
        files_sound(m, found, reads),
        leads_to_end(m, i, some),
        m.baselines.len() <= usize::MAX,
    ensures
        best_result(m, found, reads) is Ok,
        best_result(m, found, reads)->Ok_0.recovered_revision == m.recovery_revision,
{
    let order = segment_order(m.segments);
    let places = baseline_order(m.baselines);
    lemma_order_facts(m, reads);
    lemma_baseline_order(m.baselines);
    let begin = m.baselines[i].revision;
    lemma_walk_bounds(order, some, order.len(), begin, m.recovery_revision);
    lemma_walk_same(order, some, reads, order.len(), begin);
    let place = BaselinePlace { revision: begin, index: i as usize };
    assert(baseline_places(m.baselines).contains(place));
    assert(places.contains(place));
    let at = places.index_of(place);
    lemma_try_baselines(m, places, found, reads, places.len());
    let t = try_baselines(m, places, found, reads, places.len());
    assert(found[i] is Ok);
    assert(places[at].index == i);
    let reached = plan_result(
        m,
        m.baselines[places[at].index as int],
        found[places[at].index as int],
        reads,
    );
    assert(reached is Ok && reached->Ok_0.recovered_revision == m.recovery_revision);
    let best = t.best->0;
    let j = choose|j: int|
        0 <= j < places.len() && plan_result(
            m,
            m.baselines[(#[trigger] places[j]).index as int],
            found[places[j].index as int],
            reads,
        ) == Ok::<PlanView, ErrorView>(best);
    assert(places.contains(places[j]));
    assert(baseline_places(m.baselines).contains(places[j]));
    let from = m.baselines[places[j].index as int].revision;
    assert(from <= m.recovery_revision);
    lemma_walk_bounds(order, reads, order.len(), from, m.recovery_revision);
}

/// A best plan that reaches the end shows a baseline that leads there.
proof fn lemma_best_leads(
    m: ManifestView,
    found: Seq<Result<BaselineFacts, CoreError>>,
    reads: Seq<Result<RecoverySegment, CoreError>>,
) -> (i: int)
    requires
        best_result(m, found, reads) is Ok,
        best_result(m, found, reads)->Ok_0.recovered_revision == m.recovery_revision,
    ensures
        leads_to_end(m, i, reads),
{
    let places = baseline_order(m.baselines);
    lemma_baseline_order(m.baselines);
    lemma_try_baselines(m, places, found, reads, places.len());
    let t = try_baselines(m, places, found, reads, places.len());
    let best = t.best->0;
    let j = choose|j: int|
        0 <= j < places.len() && plan_result(
            m,
            m.baselines[(#[trigger] places[j]).index as int],
            found[places[j].index as int],
            reads,
        ) == Ok::<PlanView, ErrorView>(best);
    assert(places.contains(places[j]));
    assert(baseline_places(m.baselines).contains(places[j]));
    places[j].index as int
}

/// One more segment that goes on where the material ends leads on to its end.
proof fn lemma_append_leads(
    m: ManifestView,
    segment: SegmentView,
    i: int,
    reads: Seq<Result<RecoverySegment, CoreError>>,
    after: Seq<Result<RecoverySegment, CoreError>>,
)
    requires
        promises(m),
        forward(m),
        leads_to_end(m, i, reads),
        m.baselines[i].revision <= m.recovery_revision,
        m.segments.len() < usize::MAX,
        segment.from_revision == m.recovery_revision,
        segment.through_revision > m.recovery_revision,
        after.len() == m.segments.len() + 1,
        forall|k: int|
            0 <= k < after.len() ==> segment_sound(
                appended(m, segment).segments[k],
                #[trigger] after[k],
            ),
    ensures
        leads_to_end(appended(m, segment), i, after),
{
    let n = appended(m, segment);
    let order = segment_order(m.segments);
    let place = SegmentPlace {
        from_revision: segment.from_revision,
        through_revision: segment.through_revision,
        index: m.segments.len() as usize,
    };
    let longer = order.push(place);
    lemma_segment_order(m.segments);
    lemma_order_facts(m, reads);
    assert forall|k: int| 0 <= k < order.len() implies segment_places(m.segments).contains(
        #[trigger] order[k],
    ) by {
        assert(order.contains(order[k]));
    }
    assert forall|a: int, b: int| 0 <= a < b < longer.len() implies SegmentPlace::before(
        #[trigger] longer[a],
        #[trigger] longer[b],
    ) by {
        if b < order.len() {
            assert(SegmentPlace::before(order[a], order[b]));
        } else {
            assert(segment_places(m.segments).contains(order[a]));
            let s = m.segments[order[a].index as int];
            assert(s.from_revision < s.through_revision);
        }
    }
    assert forall|p: SegmentPlace| #[trigger] longer.contains(p) <==> segment_places(
        n.segments,
    ).contains(p) by {
        if longer.contains(p) {
            let k = longer.index_of(p);
            if k < order.len() {
                assert(segment_places(m.segments).contains(order[k]));
                assert(n.segments[p.index as int] == m.segments[p.index as int]);
            } else {
                assert(n.segments[m.segments.len() as int] == segment);
            }
        }
        if segment_places(n.segments).contains(p) {
            if p.index < m.segments.len() {
                assert(n.segments[p.index as int] == m.segments[p.index as int]);
                assert(segment_places(m.segments).contains(p));
                assert(order.contains(p));
                let k = order.index_of(p);
                assert(longer[k] == p);
            } else {
                assert(n.segments[m.segments.len() as int] == segment);
                assert(p == place);
                assert(longer[order.len() as int] == p);
            }
        }
    }
    lemma_lists_in_order::<SegmentPlace>(longer, segment_places(n.segments));
    assert(segment_order(n.segments) == in_order::<SegmentPlace>(segment_places(n.segments)));
    let begin = m.baselines[i].revision;
    let len = order.len();
    lemma_walk_bounds(order, reads, len, begin, m.recovery_revision);
    assert forall|k: int| 0 <= k < n.segments.len() implies (
    #[trigger] n.segments[k]).through_revision <= n.recovery_revision by {
        if k < m.segments.len() {
            assert(n.segments[k] == m.segments[k]);
        }
    }
    assert forall|k: int| 0 <= k < n.baselines.len() implies (#[trigger] n.baselines[k]).revision
        <= n.recovery_revision by {
        assert(n.baselines[k] == m.baselines[k]);
    }
    lemma_order_facts(n, after);
    lemma_walk_prefix(order, longer, reads, len, begin);
    lemma_walk_same(longer, reads, after, len, begin);
    let p = longer[len as int];
    assert(p == place);
    assert(segment_sound(n.segments[m.segments.len() as int], after[m.segments.len() as int]));
    assert(walk(longer, after, len + 1, begin) == walk_step(
        walk(longer, after, len, begin),
        p,
        after[p.index as int],
    ));
}

/// The manifest once what reconciling decided was done: nothing; a new baseline alone; or one more
/// segment and, where it is due, a new baseline.
pub open spec fn repaired(
    m: ManifestView,
    action: ActionView,
    segment: SegmentView,
    baseline: BaselineView,
) -> ManifestView {
    match action {
        ActionView::Nothing => m,
        ActionView::Reset { purge_barrier_revision, note } => reset_manifest(
            (m.generation + 1) as u64,
            baseline,
            purge_barrier_revision,
            note,
        ),
        ActionView::Append(_) => {
            let a = appended(m, segment);
            if due(a) {
                rotated(a, next_slot(a.baselines), baseline)
            } else {
                a
            }
        },
    }
}

/// Reconciling brings recovery material that fell behind, for whatever reason, up with the live
/// store: once what it decided was done and the files are what the manifest says, the material is
/// current, and all of it can be recovered.
pub proof fn law_reconciling_repairs_recovery(
    manifest: RecoveryManifest,
    live: RecordModel,
    found: Seq<Result<BaselineFacts, CoreError>>,
    reads: Seq<Result<RecoverySegment, CoreError>>,
    best: Result<RecoveryPlan, CoreError>,
    segment: SegmentView,
    baseline: BaselineView,
    after: RecoveryManifest,
    found_after: Seq<Result<BaselineFacts, CoreError>>,
    reads_after: Seq<Result<RecoverySegment, CoreError>>,
    best_after: Result<RecoveryPlan, CoreError>,
)
    requires
        bounded(manifest@),
        forward(manifest@),
        manifest@.generation < u64::MAX - 1,
        best_is(best, manifest@, found, reads),
        segment.from_revision == manifest@.recovery_revision,
        segment.through_revision == live.revision,
        baseline.revision == live.revision,
        after@ == repaired(
            manifest@,
            reconcile_action(manifest@, live, best),
            segment,
            baseline,
        ),
        files_sound(after@, found_after, reads_after),
        best_is(best_after, after@, found_after, reads_after),
    ensures
        bounded(after@),
        forward(after@),
        ({
            let status = status_of(Ok(after), best_after, live.revision);
            &&& status.state is Current
            &&& status.manifest_revision == Some(live.revision)
            &&& status.recoverable_revision == Some(live.revision)
        }),
{
    let m = manifest@;
    let n = after@;
    let action = reconcile_action(m, live, best);
    assert forall|i: int| 0 <= i < m.baselines.len() implies (#[trigger] m.baselines[i]).revision
        <= m.recovery_revision by {
        assert(m.baselines[i].revision <= m.baselines.last().revision);
    }
    assert(promises(m));
    match action {
        ActionView::Nothing => {
            let i = lemma_best_leads(m, found, reads);
            lemma_best_reaches(m, i, reads, found_after, reads_after);
        },
        ActionView::Reset { purge_barrier_revision, note } => {
            law_reset_is_bounded(
                (m.generation + 1) as u64,
                baseline,
                purge_barrier_revision,
                note,
            );
            lemma_last_leads(n, reads_after);
            lemma_best_reaches(n, 0, reads_after, found_after, reads_after);
        },
        ActionView::Append(p) => {
            assert(delta_since(live, m.recovery_revision) == DeltaView::Available(p));
            assert(m.recovery_revision < live.revision);
            let a = appended(m, segment);
            law_material_stays_bounded(m, segment, baseline);
            assert forall|i: int| 0 <= i < a.segments.len() implies (
            #[trigger] a.segments[i]).from_revision < a.segments[i].through_revision by {
                if i < m.segments.len() {
                    assert(a.segments[i] == m.segments[i]);
                }
            }
            if due(a) {
                let keep = |s: SegmentView| s.through_revision > n.baselines[0].revision;
                lemma_filter_comes_of(a.segments, keep);
                assert forall|i: int| 0 <= i < n.segments.len() implies (
                #[trigger] n.segments[i]).from_revision < n.segments[i].through_revision by {
                    assert(a.segments.contains(n.segments[i]));
                    let k = a.segments.index_of(n.segments[i]);
                    assert(a.segments[k] == n.segments[i]);
                }
                lemma_last_leads(n, reads_after);
                lemma_best_reaches(
                    n,
                    n.baselines.len() - 1,
                    reads_after,
                    found_after,
                    reads_after,
                );
            } else {
                let i = lemma_best_leads(m, found, reads);
                lemma_append_leads(m, segment, i, reads, reads_after);
                assert forall|k: int| 0 <= k < n.baselines.len() implies (
                #[trigger] n.baselines[k]).revision <= n.recovery_revision by {
                    assert(n.baselines[k] == m.baselines[k]);
                }
                lemma_best_reaches(n, i, reads_after, found_after, reads_after);
            }
        },
    }
}

/// A baseline at the promised revision needs no segment.
proof fn lemma_last_leads(m: ManifestView, reads: Seq<Result<RecoverySegment, CoreError>>)
    requires
        bounded(m),
        m.baselines.last().revision == m.recovery_revision,
    ensures
        promises(m),
        leads_to_end(m, m.baselines.len() - 1, reads),
{
    assert forall|i: int| 0 <= i < m.baselines.len() implies (#[trigger] m.baselines[i]).revision
        <= m.recovery_revision by {
        assert(m.baselines[i].revision <= m.baselines.last().revision);
    }
    lemma_order_facts(m, reads);
    let order = segment_order(m.segments);
    lemma_walk_bounds(order, reads, order.len(), m.recovery_revision, m.recovery_revision);
}

/// A purge whose recovery barrier failed is made up for by reconciling, as long as the material is
/// whole and the journal reaches back to it: the barrier is then at the live revision, which is
/// what can be recovered, and no earlier material is left.
pub proof fn law_reconciling_completes_a_barrier(
    manifest: RecoveryManifest,
    live: RecordModel,
    best: Result<RecoveryPlan, CoreError>,
    segment: SegmentView,
    baseline: BaselineView,
    after: RecoveryManifest,
    found_after: Seq<Result<BaselineFacts, CoreError>>,
    reads_after: Seq<Result<RecoverySegment, CoreError>>,
    best_after: Result<RecoveryPlan, CoreError>,
)
    requires
        best is Ok,
        best->Ok_0.recovered_revision == manifest@.recovery_revision,
        manifest@.recovery_revision < live.revision,
        delta_since(live, manifest@.recovery_revision) is Available,
        purges(delta_since(live, manifest@.recovery_revision)->Available_0),
        baseline.revision == live.revision,
        after@ == repaired(
            manifest@,
            reconcile_action(manifest@, live, best),
            segment,
            baseline,
        ),
        files_sound(after@, found_after, reads_after),
        best_is(best_after, after@, found_after, reads_after),
    ensures
        ({
            let status = status_of(Ok(after), best_after, live.revision);
            &&& status.state is Current
            &&& status.purge_barrier_revision == Some(live.revision)
            &&& status.recoverable_revision == Some(live.revision)
        }),
        after@.baselines == seq![baseline],
        after@.segments.len() == 0,
{
    let m = manifest@;
    let n = after@;
    law_reset_is_bounded(
        (m.generation + 1) as u64,
        baseline,
        Some(live.revision),
        Some("recovery reset across a retained purge revision"@),
    );
    lemma_last_leads(n, reads_after);
    lemma_best_reaches(n, 0, reads_after, found_after, reads_after);
}

} // verus!
