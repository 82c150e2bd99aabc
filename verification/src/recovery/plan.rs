//! What can be recovered of the material that there is.
use vstd::prelude::*;
use crate::api::optional_text;
use crate::error::{message_of, CoreError, ErrorView};
use crate::record_store::history::{is_history, law_journal_replays, without_journal};
use crate::record_store::laws::consistent;
use crate::record_store::model::{Present, RecordModel, RecordStore};
use crate::record_store::frames::{
    frame_result, law_written_frame_applies, written_of, FrameView, PatchFrame,
};
use crate::record_store::projection::{delta_since, PatchView};
use crate::record_store::recovery::{in_place, patched, takes};
use crate::recovery::artifacts::{
    recovery_corrupt, recovery_fault, BaselineArtifact, BaselineView, ManifestView,
    RecoveryManifest, RecoverySegment, SegmentView,
};
use crate::table::{in_order, Table, TableKey};
use crate::text::{decimal, decimal_of, join2, join3};

verus! {

/// A segment at its place in the order in which segments are applied.
#[derive(Debug, Clone, Copy, PartialEq, Eq, Structural)]
pub struct SegmentPlace {
    pub from_revision: u64,
    pub through_revision: u64,
    pub index: usize,
}

impl View for SegmentPlace {
    type V = SegmentPlace;

    open spec fn view(&self) -> SegmentPlace {
        *self
    }
}

/// Segments stand by where they begin, then where they end, then as the manifest has them.
impl TableKey for SegmentPlace {
    open spec fn before(a: SegmentPlace, b: SegmentPlace) -> bool {
        if a.from_revision != b.from_revision {
            a.from_revision < b.from_revision
        } else if a.through_revision != b.through_revision {
            a.through_revision < b.through_revision
        } else {
            a.index < b.index
        }
    }

    proof fn before_irreflexive(a: SegmentPlace) {
    }

    proof fn before_transitive(a: SegmentPlace, b: SegmentPlace, c: SegmentPlace) {
    }

    proof fn before_total(a: SegmentPlace, b: SegmentPlace) {
    }

    fn is_before(&self, other: &SegmentPlace) -> (r: bool) {
        if self.from_revision != other.from_revision {
            self.from_revision < other.from_revision
        } else if self.through_revision != other.through_revision {
            self.through_revision < other.through_revision
        } else {
            self.index < other.index
        }
    }

    fn copy_key(&self) -> (r: SegmentPlace) {
        *self
    }
}

/// A baseline at its place in the order in which baselines are tried: the latest first.
#[derive(Debug, Clone, Copy, PartialEq, Eq, Structural)]
pub struct BaselinePlace {
    pub revision: u64,
    pub index: usize,
}

impl View for BaselinePlace {
    type V = BaselinePlace;

    open spec fn view(&self) -> BaselinePlace {
        *self
    }
}

impl TableKey for BaselinePlace {
    open spec fn before(a: BaselinePlace, b: BaselinePlace) -> bool {
        if a.revision != b.revision {
            a.revision > b.revision
        } else {
            a.index < b.index
        }
    }

    proof fn before_irreflexive(a: BaselinePlace) {
    }

    proof fn before_transitive(a: BaselinePlace, b: BaselinePlace, c: BaselinePlace) {
    }

    proof fn before_total(a: BaselinePlace, b: BaselinePlace) {
    }

    fn is_before(&self, other: &BaselinePlace) -> (r: bool) {
        if self.revision != other.revision {
            self.revision > other.revision
        } else {
            self.index < other.index
        }
    }

    fn copy_key(&self) -> (r: BaselinePlace) {
        *self
    }
}

/// The segments of a manifest in the order in which they are applied.
pub open spec fn segment_order(segments: Seq<SegmentView>) -> Seq<SegmentPlace> {
    in_order::<SegmentPlace>(
        Set::new(
            |p: SegmentPlace|
                p.index < segments.len() && p.from_revision
                    == segments[p.index as int].from_revision && p.through_revision
                    == segments[p.index as int].through_revision,
        ),
    )
}

/// The baselines of a manifest in the order in which they are tried.
pub open spec fn baseline_order(baselines: Seq<BaselineView>) -> Seq<BaselinePlace> {
    in_order::<BaselinePlace>(
        Set::new(
            |p: BaselinePlace|
                p.index < baselines.len() && p.revision == baselines[p.index as int].revision,
        ),
    )
}

/// How far recovery has got: the revision reached, the segments used for that, and why it went no
/// further.
pub struct Walk {
    pub cursor: u64,
    pub used: Seq<usize>,
    pub note: Option<Seq<char>>,
}

/// How notes begin that say where confidence ends.
pub open spec fn boundary(cursor: u64) -> Seq<char> {
    "recovery confidence boundary is revision "@ + decimal_of(cursor as nat)
}

/// Whether what a segment says of itself is what the manifest says of it.
pub open spec fn agrees(s: RecoverySegment, p: SegmentPlace, cursor: u64) -> bool {
    s.from_revision == cursor && s.through_revision == p.through_revision && s.patch.from_revision
        == cursor && s.patch.target_revision == p.through_revision
}

/// What one segment adds: nothing where the revision it ends at is reached already or recovery has
/// stopped; the end of recovery where it begins elsewhere, cannot be read, or is not what it
/// should be; and otherwise its own end.
pub open spec fn walk_step(
    w: Walk,
    p: SegmentPlace,
    read: Result<RecoverySegment, CoreError>,
) -> Walk {
    if w.note is Some || p.through_revision <= w.cursor {
        w
    } else if p.from_revision != w.cursor {
        Walk {
            note: Some(
                boundary(w.cursor) + "; the next segment begins after revision "@ + decimal_of(
                    p.from_revision as nat,
                ),
            ),
            ..w
        }
    } else {
        match read {
            Ok(s) => if agrees(s, p, w.cursor) {
                Walk { cursor: s.through_revision, used: w.used.push(p.index), note: None }
            } else {
                Walk {
                    note: Some(boundary(w.cursor) + "; segment metadata is inconsistent"@),
                    ..w
                }
            },
            Err(e) => Walk { note: Some(boundary(w.cursor) + "; "@ + message_of(e@)), ..w },
        }
    }
}

/// How far recovery gets from a revision with the first `n` of these segments.
pub open spec fn walk(
    order: Seq<SegmentPlace>,
    reads: Seq<Result<RecoverySegment, CoreError>>,
    n: nat,
    begin: u64,
) -> Walk
    decreases n,
{
    if n == 0 || n > order.len() {
        Walk { cursor: begin, used: Seq::empty(), note: None }
    } else {
        let w = walk(order, reads, (n - 1) as nat, begin);
        walk_step(w, order[n - 1], reads[order[n - 1].index as int])
    }
}

/// What was found in the file of a baseline: the revision of the store in it, and whether that
/// store is sound.
#[derive(Debug, Clone, Copy, PartialEq, Eq, Structural)]
pub struct BaselineFacts {
    pub revision: u64,
    pub integrity_ok: bool,
}

/// What to recover from: a baseline, and the segments to apply to it, by their places in the
/// manifest.
#[derive(Debug)]
pub struct RecoveryPlan {
    pub baseline: BaselineArtifact,
    pub segments: Vec<usize>,
    pub recovered_revision: u64,
    pub note: Option<String>,
}

pub struct PlanView {
    pub baseline: BaselineView,
    pub segments: Seq<usize>,
    pub recovered_revision: u64,
    pub note: Option<Seq<char>>,
}

impl View for RecoveryPlan {
    type V = PlanView;

    open spec fn view(&self) -> PlanView {
        PlanView {
            baseline: self.baseline@,
            segments: self.segments@,
            recovered_revision: self.recovered_revision,
            note: optional_text(self.note),
        }
    }
}

/// What can be recovered from one baseline, given what was found in its file and in those of the
/// segments.
pub open spec fn plan_result(
    m: ManifestView,
    baseline: BaselineView,
    found: Result<BaselineFacts, CoreError>,
    reads: Seq<Result<RecoverySegment, CoreError>>,
) -> Result<PlanView, ErrorView> {
    match found {
        Err(e) => Err(e@),
        Ok(facts) => if !facts.integrity_ok || facts.revision != baseline.revision {
            Err(
                recovery_fault("baseline "@ + baseline.filename + " failed semantic validation"@),
            )
        } else {
            let order = segment_order(m.segments);
            let w = walk(order, reads, order.len(), baseline.revision);
            Ok(
                PlanView {
                    baseline,
                    segments: w.used,
                    recovered_revision: w.cursor,
                    note: w.note,
                },
            )
        },
    }
}

/// The segments of a manifest at their places.
fn ordered_segments(manifest: &RecoveryManifest) -> (r: Table<SegmentPlace, Present>)
    ensures
        r.wf(),
        r.keys() == segment_order(manifest@.segments),
        forall|j: int|
            0 <= j < r.keys().len() ==> (#[trigger] r.keys()[j]).index < manifest.segments@.len(),
{
    let ghost segments = manifest@.segments;
    let mut r: Table<SegmentPlace, Present> = Table::new();
    let mut i: usize = 0;
    while i < manifest.segments.len()
        invariant
            segments == manifest@.segments,
            i <= manifest.segments@.len(),
            r.wf(),
            forall|p: SegmentPlace| #[trigger]
                r@.dom().contains(p) <==> p.index < i && p.from_revision
                    == segments[p.index as int].from_revision && p.through_revision
                    == segments[p.index as int].through_revision,
        decreases manifest.segments@.len() - i,
    {
        let segment = &manifest.segments[i];
        r.insert(
            SegmentPlace {
                from_revision: segment.from_revision,
                through_revision: segment.through_revision,
                index: i,
            },
            Present,
        );
        i = i + 1;
    }
    proof {
        r.lemma_view();
        assert(r@.dom() =~= Set::new(
            |p: SegmentPlace|
                p.index < segments.len() && p.from_revision
                    == segments[p.index as int].from_revision && p.through_revision
                    == segments[p.index as int].through_revision,
        ));
        assert forall|j: int| 0 <= j < r.keys().len() implies (#[trigger] r.keys()[j]).index
            < manifest.segments@.len() by {
            assert(r@.dom().contains(r.keys()[j]));
        }
    }
    r
}

fn boundary_text(cursor: u64) -> (r: String)
    ensures
        r@ == boundary(cursor),
{
    let revision = decimal(cursor as u128);
    join2("recovery confidence boundary is revision ", revision.as_str())
}

/// Plans recovery from one baseline.
pub fn plan_from_baseline(
    manifest: &RecoveryManifest,
    baseline: &BaselineArtifact,
    found: &Result<BaselineFacts, CoreError>,
    reads: &Vec<Result<RecoverySegment, CoreError>>,
) -> (r: Result<RecoveryPlan, CoreError>)
    requires
        reads@.len() == manifest.segments@.len(),
    ensures
        match r {
            Ok(plan) => plan_result(manifest@, baseline@, *found, reads@) == Ok::<
                PlanView,
                ErrorView,
            >(plan@),
            Err(e) => plan_result(manifest@, baseline@, *found, reads@) == Err::<
                PlanView,
                ErrorView,
            >(e@),
        },
{
    match found {
        Err(e) => return Err(e.clone()),
        Ok(facts) => {
            if !facts.integrity_ok || facts.revision != baseline.revision {
                return Err(
                    recovery_corrupt(
                        join3(
                            "baseline ",
                            baseline.filename.as_str(),
                            " failed semantic validation",
                        ),
                    ),
                );
            }
        },
    }
    let places = ordered_segments(manifest);
    let ghost order = places.keys();
    let mut cursor: u64 = baseline.revision;
    let mut used: Vec<usize> = Vec::new();
    let mut note: Option<String> = None;
    let mut i: usize = 0;
    while i < places.len()
        invariant
            places.wf(),
            order == places.keys(),
            i <= order.len(),
            reads@.len() == manifest.segments@.len(),
            forall|j: int|
                0 <= j < order.len() ==> (#[trigger] order[j]).index < manifest.segments@.len(),
            walk(order, reads@, i as nat, baseline.revision) == (Walk {
                cursor,
                used: used@,
                note: optional_text(note),
            }),
        decreases order.len() - i,
    {
        let place = *places.key_at(i);
        if note.is_none() && place.through_revision > cursor {
            if place.from_revision != cursor {
                let begin = boundary_text(cursor);
                let next = decimal(place.from_revision as u128);
                note = Some(
                    join3(
                        begin.as_str(),
                        "; the next segment begins after revision ",
                        next.as_str(),
                    ),
                );
            } else {
                match &reads[place.index] {
                    Ok(segment) => {
                        if segment.from_revision == cursor && segment.through_revision
                            == place.through_revision && segment.patch.from_revision == cursor
                            && segment.patch.target_revision == place.through_revision {
                            cursor = segment.through_revision;
                            used.push(place.index);
                        } else {
                            let begin = boundary_text(cursor);
                            note = Some(
                                join2(begin.as_str(), "; segment metadata is inconsistent"),
                            );
                        }
                    },
                    Err(e) => {
                        let begin = boundary_text(cursor);
                        let message = e.to_string();
                        note = Some(join3(begin.as_str(), "; ", message.as_str()));
                    },
                }
            }
        }
        i = i + 1;
    }
    Ok(
        RecoveryPlan {
            baseline: baseline.clone(),
            segments: used,
            recovered_revision: cursor,
            note,
        },
    )
}

/// What trying the baselines has given so far: the best plan, and the failures.
pub struct Tried {
    pub best: Option<PlanView>,
    pub failures: Seq<Seq<char>>,
}

/// What trying the first `n` baselines gives: of the plans, the first one that reaches furthest.
pub open spec fn try_baselines(
    m: ManifestView,
    order: Seq<BaselinePlace>,
    found: Seq<Result<BaselineFacts, CoreError>>,
    reads: Seq<Result<RecoverySegment, CoreError>>,
    n: nat,
) -> Tried
    decreases n,
{
    if n == 0 || n > order.len() {
        Tried { best: None, failures: Seq::empty() }
    } else {
        let t = try_baselines(m, order, found, reads, (n - 1) as nat);
        let i = order[n - 1].index as int;
        match plan_result(m, m.baselines[i], found[i], reads) {
            Err(e) => Tried { failures: t.failures.push(message_of(e)), ..t },
            Ok(plan) => match t.best {
                Some(best) if plan.recovered_revision <= best.recovered_revision => t,
                _ => Tried { best: Some(plan), ..t },
            },
        }
    }
}

/// The first `n` texts, with semicolons between.
pub open spec fn joined(texts: Seq<Seq<char>>, n: nat) -> Seq<char>
    decreases n,
{
    if n == 0 || n > texts.len() {
        Seq::empty()
    } else if n == 1 {
        texts[0]
    } else {
        joined(texts, (n - 1) as nat) + "; "@ + texts[n - 1]
    }
}

/// The best that can be recovered: the plan that reaches furthest. Without a note of its own it
/// names the baselines that failed.
pub open spec fn best_result(
    m: ManifestView,
    found: Seq<Result<BaselineFacts, CoreError>>,
    reads: Seq<Result<RecoverySegment, CoreError>>,
) -> Result<PlanView, ErrorView> {
    let order = baseline_order(m.baselines);
    let t = try_baselines(m, order, found, reads, order.len());
    let failures = joined(t.failures, t.failures.len());
    match t.best {
        None => Err(recovery_fault("no valid recovery baseline: "@ + failures)),
        Some(plan) => if plan.note is None && t.failures.len() > 0 {
            Ok(
                PlanView {
                    note: Some("recovery ignored invalid redundant artifacts: "@ + failures),
                    ..plan
                },
            )
        } else {
            Ok(plan)
        },
    }
}

/// The baselines of a manifest at their places.
fn ordered_baselines(manifest: &RecoveryManifest) -> (r: Table<BaselinePlace, Present>)
    ensures
        r.wf(),
        r.keys() == baseline_order(manifest@.baselines),
        forall|j: int|
            0 <= j < r.keys().len() ==> (#[trigger] r.keys()[j]).index < manifest.baselines@.len(),
{
    let ghost baselines = manifest@.baselines;
    let mut r: Table<BaselinePlace, Present> = Table::new();
    let mut i: usize = 0;
    while i < manifest.baselines.len()
        invariant
            baselines == manifest@.baselines,
            i <= manifest.baselines@.len(),
            r.wf(),
            forall|p: BaselinePlace| #[trigger]
                r@.dom().contains(p) <==> p.index < i && p.revision
                    == baselines[p.index as int].revision,
        decreases manifest.baselines@.len() - i,
    {
        r.insert(BaselinePlace { revision: manifest.baselines[i].revision, index: i }, Present);
        i = i + 1;
    }
    proof {
        r.lemma_view();
        assert(r@.dom() =~= Set::new(
            |p: BaselinePlace|
                p.index < baselines.len() && p.revision == baselines[p.index as int].revision,
        ));
        assert forall|j: int| 0 <= j < r.keys().len() implies (#[trigger] r.keys()[j]).index
            < manifest.baselines@.len() by {
            assert(r@.dom().contains(r.keys()[j]));
        }
    }
    r
}

fn add_failure(so_far: Option<String>, message: &str, Ghost(failures): Ghost<Seq<Seq<char>>>) -> (r:
    Option<String>)
    requires
        match so_far {
            None => failures.len() == 0,
            Some(text) => failures.len() > 0 && text@ == joined(failures, failures.len()),
        },
    ensures
        r is Some,
        r->0@ == joined(failures.push(message@), failures.len() + 1),
{
    proof {
        lemma_joined_prefix(failures, failures.push(message@), failures.len());
    }
    match so_far {
        None => Some(message.to_owned()),
        Some(text) => Some(join3(text.as_str(), "; ", message)),
    }
}

proof fn lemma_joined_prefix(a: Seq<Seq<char>>, b: Seq<Seq<char>>, n: nat)
    requires
        n <= a.len() <= b.len(),
        forall|i: int| 0 <= i < a.len() ==> a[i] == b[i],
    ensures
        joined(a, n) == joined(b, n),
    decreases n,
{
    if n > 1 {
        lemma_joined_prefix(a, b, (n - 1) as nat);
    }
}

/// The best that can be recovered of what a manifest names, given what was found in the files.
pub fn best_plan(
    manifest: &RecoveryManifest,
    found: &Vec<Result<BaselineFacts, CoreError>>,
    reads: &Vec<Result<RecoverySegment, CoreError>>,
) -> (r: Result<RecoveryPlan, CoreError>)
    requires
        found@.len() == manifest.baselines@.len(),
        reads@.len() == manifest.segments@.len(),
    ensures
        match r {
            Ok(plan) => best_result(manifest@, found@, reads@) == Ok::<PlanView, ErrorView>(plan@),
            Err(e) => best_result(manifest@, found@, reads@) == Err::<PlanView, ErrorView>(e@),
        },
{
    let places = ordered_baselines(manifest);
    let ghost order = places.keys();
    let ghost m = manifest@;
    let mut best: Option<RecoveryPlan> = None;
    let mut failures: Option<String> = None;
    let mut i: usize = 0;
    while i < places.len()
        invariant
            places.wf(),
            order == places.keys(),
            m == manifest@,
            i <= order.len(),
            found@.len() == manifest.baselines@.len(),
            reads@.len() == manifest.segments@.len(),
            forall|j: int|
                0 <= j < order.len() ==> (#[trigger] order[j]).index < manifest.baselines@.len(),
            ({
                let t = try_baselines(m, order, found@, reads@, i as nat);
                &&& t.best == match best {
                    Some(plan) => Some(plan@),
                    None => None,
                }
                &&& match failures {
                    None => t.failures.len() == 0,
                    Some(text) => t.failures.len() > 0 && text@ == joined(
                        t.failures,
                        t.failures.len(),
                    ),
                }
            }),
        decreases order.len() - i,
    {
        let place = *places.key_at(i);
        let ghost t = try_baselines(m, order, found@, reads@, i as nat);
        proof {
            assert(m.baselines[place.index as int] == manifest.baselines@[place.index as int]@);
        }
        match plan_from_baseline(
            manifest,
            &manifest.baselines[place.index],
            &found[place.index],
            reads,
        ) {
            Err(e) => {
                let message = e.to_string();
                failures = add_failure(failures, message.as_str(), Ghost(t.failures));
            },
            Ok(plan) => {
                let better = match &best {
                    None => true,
                    Some(current) => plan.recovered_revision > current.recovered_revision,
                };
                if better {
                    best = Some(plan);
                }
            },
        }
        i = i + 1;
    }
    match best {
        None => {
            let text = match failures {
                Some(text) => text,
                None => String::new(),
            };
            proof {
                let t = try_baselines(m, order, found@, reads@, order.len());
                assert(text@ =~= joined(t.failures, t.failures.len()));
            }
            Err(recovery_corrupt(join2("no valid recovery baseline: ", text.as_str())))
        },
        Some(plan) => match failures {
            Some(text) if plan.note.is_none() => {
                let note = join2(
                    "recovery ignored invalid redundant artifacts: ",
                    text.as_str(),
                );
                Ok(
                    RecoveryPlan {
                        baseline: plan.baseline,
                        segments: plan.segments,
                        recovered_revision: plan.recovered_revision,
                        note: Some(note),
                    },
                )
            },
            _ => Ok(plan),
        },
    }
}

/// A recovery candidate after the first `n` of these patches, if it takes them all.
pub open spec fn replayed(m: RecordModel, patches: Seq<PatchView>, n: nat) -> Option<RecordModel>
    decreases n,
{
    if n == 0 || n > patches.len() {
        Some(m)
    } else {
        match replayed(m, patches, (n - 1) as nat) {
            None => None,
            Some(k) => if takes(k, patches[n - 1]) {
                Some(patched(k, patches[n - 1]))
            } else {
                None
            },
        }
    }
}

/// The views of some frames.
pub open spec fn frames_view(frames: Seq<PatchFrame>) -> Seq<FrameView> {
    Seq::new(frames.len(), |i: int| frames[i]@)
}

/// A recovery candidate after the first `n` of these frames, or why the first of them fails that
/// does.
pub open spec fn replay_result(m: RecordModel, frames: Seq<FrameView>, n: nat) -> Result<
    RecordModel,
    ErrorView,
>
    decreases n,
{
    if n == 0 || n > frames.len() {
        Ok(m)
    } else {
        match replay_result(m, frames, (n - 1) as nat) {
            Err(e) => Err(e),
            Ok(k) => frame_result(k, frames[n - 1]),
        }
    }
}

/// Applies frames to a recovery candidate, and refuses it unless it reaches the revision that was
/// planned.
pub fn reconstruct(baseline: RecordStore, patches: &Vec<PatchFrame>, planned: u64) -> (r: Result<
    RecordStore,
    CoreError,
>)
    requires
        baseline.wf(),
    ensures
        ({
            let all = frames_view(patches@);
            match r {
                Ok(store) => {
                    &&& store.wf()
                    &&& replay_result(baseline@, all, all.len()) is Ok
                    &&& store@ == without_journal(replay_result(baseline@, all, all.len())->Ok_0)
                    &&& store@.revision == planned
                },
                Err(e) => match replay_result(baseline@, all, all.len()) {
                    Err(fault) => e@ == fault,
                    Ok(m) => m.revision != planned && e@ == recovery_fault(
                        "reconstructed candidate failed integrity or revision validation"@,
                    ),
                },
            }
        }),
{
    let ghost all = frames_view(patches@);
    let ghost begun = baseline@;
    let mut store = baseline;
    let mut i: usize = 0;
    while i < patches.len()
        invariant
            store.wf(),
            begun == baseline@,
            all == frames_view(patches@),
            i <= patches@.len(),
            replay_result(begun, all, i as nat) == Ok::<RecordModel, ErrorView>(store@),
        decreases patches@.len() - i,
    {
        proof {
            assert(all[i as int] == patches@[i as int]@);
        }
        match store.apply_recovery_patch(&patches[i]) {
            Err(e) => {
                proof {
                    lemma_replay_stops(begun, all, (i + 1) as nat, all.len(), e@);
                }
                return Err(e);
            },
            Ok(_) => {},
        }
        i = i + 1;
    }
    store.clear_change_journal();
    if store.current_revision() != planned {
        return Err(
            recovery_corrupt(
                "reconstructed candidate failed integrity or revision validation".to_owned(),
            ),
        );
    }
    Ok(store)
}

proof fn lemma_replay_stops(
    m: RecordModel,
    frames: Seq<FrameView>,
    n: nat,
    all: nat,
    e: ErrorView,
)
    requires
        n <= all <= frames.len(),
        replay_result(m, frames, n) == Err::<RecordModel, ErrorView>(e),
    ensures
        replay_result(m, frames, all) == Err::<RecordModel, ErrorView>(e),
    decreases all,
{
    if n < all {
        lemma_replay_stops(m, frames, n, (all - 1) as nat, e);
    }
}

/// Replaying the frames that were written of some patches gives what the patches give.
pub proof fn law_written_frames_replay(
    m: RecordModel,
    patches: Seq<PatchView>,
    frames: Seq<FrameView>,
    n: nat,
)
    requires
        n <= patches.len() == frames.len(),
        forall|i: int| 0 <= i < patches.len() ==> written_of(#[trigger] frames[i], patches[i]),
        replayed(m, patches, n) is Some,
    ensures
        replay_result(m, frames, n) == Ok::<RecordModel, ErrorView>(
            replayed(m, patches, n)->0,
        ),
    decreases n,
{
    if n > 0 {
        law_written_frames_replay(m, patches, frames, (n - 1) as nat);
        assert(written_of(frames[n - 1], patches[n - 1]));
        law_written_frame_applies(
            replayed(m, patches, (n - 1) as nat)->0,
            patches[n - 1],
            frames[n - 1],
        );
    }
}

/// Whether these are patches that the journal gave at these places of a history, each going on
/// where the one before it ended.
pub open spec fn journal_patches(
    h: Seq<RecordModel>,
    cuts: Seq<int>,
    patches: Seq<PatchView>,
) -> bool {
    &&& cuts.len() == patches.len() + 1
    &&& forall|i: int| 0 <= i < cuts.len() ==> 0 <= #[trigger] cuts[i] < h.len()
    &&& forall|i: int, j: int| 0 <= i && j == i + 1 && j < cuts.len() ==> (#[trigger] cuts[i]) < (#[trigger] cuts[j])
    &&& forall|i: int|
        0 <= i < patches.len() ==> delta_since(h[cuts[i + 1]], h[cuts[i]].revision)
            == crate::record_store::projection::DeltaView::Available(#[trigger] patches[i])
}

/// Recovery loses nothing: a baseline that is a copy of the store at some revision, with the
/// frames written of the patches that the journal gave from there on, is reconstructed into exactly
/// the content that the store had when the last of them was written.
pub proof fn law_reconstruction_is_exact(
    h: Seq<RecordModel>,
    cuts: Seq<int>,
    patches: Seq<PatchView>,
    frames: Seq<FrameView>,
    n: nat,
)
    requires
        is_history(h),
        journal_patches(h, cuts, patches),
        n <= patches.len() == frames.len(),
        forall|i: int| 0 <= i < patches.len() ==> written_of(#[trigger] frames[i], patches[i]),
    ensures
        replay_result(without_journal(h[cuts[0]]), frames, n) == Ok::<RecordModel, ErrorView>(
            without_journal(h[cuts[n as int]]),
        ),
{
    lemma_patches_replay(h, cuts, patches, n);
    law_written_frames_replay(without_journal(h[cuts[0]]), patches, frames, n);
}

proof fn lemma_patches_replay(
    h: Seq<RecordModel>,
    cuts: Seq<int>,
    patches: Seq<PatchView>,
    n: nat,
)
    requires
        is_history(h),
        journal_patches(h, cuts, patches),
        n <= patches.len(),
    ensures
        replayed(without_journal(h[cuts[0]]), patches, n) == Some(
            without_journal(h[cuts[n as int]]),
        ),
    decreases n,
{
    if n > 0 {
        lemma_patches_replay(h, cuts, patches, (n - 1) as nat);
        let i = n - 1;
        let a = cuts[i];
        let b = cuts[n as int];
        let part = h.subrange(a, b + 1);
        assert(cuts[i] < cuts[i + 1]);
        assert forall|k: int| 0 <= k < part.len() implies consistent(#[trigger] part[k]) by {
            assert(part[k] == h[a + k]);
        }
        assert forall|k: int, l: int|
            0 <= k && l == k + 1 && l
                < part.len() implies crate::record_store::history::leads(
            #[trigger] part[k],
            #[trigger] part[l],
        ) by {
            assert(crate::record_store::history::leads(h[a + k], h[a + l]));
        }
        law_journal_replays(part);
        assert(part[0] == h[a] && part.last() == h[b]);
        let k = without_journal(h[a]);
        let p = patches[i];
        assert(patched(k, p) == patched(h[a], p));
        assert(in_place(k, p));
    }
}

} // verus!
