//! Keeping the recovery material up with the live Record Store.
use vstd::prelude::*;
use crate::api::{clone_optional_text, optional_text};
use crate::error::{message_of, CoreError};
use crate::id::NodeId;
use crate::index::projection::gone;
use crate::record_store::model::{Present, RecordModel, RecordStore};
use crate::record_store::projection::{
    delta_since, DeltaView, JournalDelta, PatchView, ProjectionPatch,
};
use crate::recovery::artifacts::{
    baselines_view, recovery_corrupt, recovery_fault, segments_view, BaselineArtifact, BaselineView,
    ManifestView, RecoveryManifest, SegmentArtifact, SegmentView, RECORD_SCHEMA_VERSION,
    RECOVERY_FORMAT_VERSION, SEGMENTS_PER_BASELINE,
};
use crate::recovery::plan::{PlanView, RecoveryPlan};
use crate::table::{in_order, Table, TableKey};
use crate::text::{decimal, decimal_of, join3, same_text};

verus! {

/// How well the recovery material covers the live store.
#[derive(Debug, Clone, Copy, PartialEq, Eq, Structural)]
pub enum RecoveryState {
    Current,
    Lagging,
    Degraded,
    Unavailable,
}

/// What there is to recover from.
#[derive(Debug, PartialEq, Eq)]
pub struct RecoveryStatus {
    pub state: RecoveryState,
    pub live_revision: u64,
    pub manifest_revision: Option<u64>,
    pub recoverable_revision: Option<u64>,
    pub baseline_count: usize,
    pub segment_count: usize,
    pub purge_barrier_revision: Option<u64>,
    pub note: Option<String>,
}

pub struct StatusView {
    pub state: RecoveryState,
    pub live_revision: u64,
    pub manifest_revision: Option<u64>,
    pub recoverable_revision: Option<u64>,
    pub baseline_count: nat,
    pub segment_count: nat,
    pub purge_barrier_revision: Option<u64>,
    pub note: Option<Seq<char>>,
}

impl View for RecoveryStatus {
    type V = StatusView;

    open spec fn view(&self) -> StatusView {
        StatusView {
            state: self.state,
            live_revision: self.live_revision,
            manifest_revision: self.manifest_revision,
            recoverable_revision: self.recoverable_revision,
            baseline_count: self.baseline_count as nat,
            segment_count: self.segment_count as nat,
            purge_barrier_revision: self.purge_barrier_revision,
            note: optional_text(self.note),
        }
    }
}

/// How far the best plan reaches, and what is to be said of it.
pub open spec fn recoverable(best: Result<RecoveryPlan, CoreError>) -> (
    Option<u64>,
    Option<Seq<char>>,
) {
    match best {
        Ok(plan) => (Some(plan.recovered_revision), optional_text(plan.note)),
        Err(e) => (None, Some(message_of(e@))),
    }
}

/// How far the best plan reaches, and what is to be said of it.
pub fn best_recoverable_revision(best: &Result<RecoveryPlan, CoreError>) -> (r: (
    Option<u64>,
    Option<String>,
))
    ensures
        r.0 == recoverable(*best).0,
        optional_text(r.1) == recoverable(*best).1,
{
    match best {
        Ok(plan) => (Some(plan.recovered_revision), clone_optional_text(&plan.note)),
        Err(e) => (None, Some(e.to_string())),
    }
}

/// How well material that reaches `recoverable` covers a store at `live`, where its manifest
/// promises `promised`: not at all; less than promised; less than there is; all of it; or more
/// than there is, which cannot be trusted.
pub open spec fn state_of(recoverable: Option<u64>, promised: u64, live: u64) -> RecoveryState {
    match recoverable {
        None => RecoveryState::Unavailable,
        Some(revision) => if revision < promised {
            RecoveryState::Degraded
        } else if promised < live {
            RecoveryState::Lagging
        } else if promised == live {
            RecoveryState::Current
        } else {
            RecoveryState::Degraded
        },
    }
}

/// What there is to recover from, given the manifest and the best plan.
pub open spec fn status_of(
    manifest: Result<RecoveryManifest, CoreError>,
    best: Result<RecoveryPlan, CoreError>,
    live: u64,
) -> StatusView {
    match manifest {
        Err(e) => StatusView {
            state: RecoveryState::Unavailable,
            live_revision: live,
            manifest_revision: None,
            recoverable_revision: None,
            baseline_count: 0,
            segment_count: 0,
            purge_barrier_revision: None,
            note: Some(message_of(e@)),
        },
        Ok(m) => StatusView {
            state: state_of(recoverable(best).0, m.recovery_revision, live),
            live_revision: live,
            manifest_revision: Some(m.recovery_revision),
            recoverable_revision: recoverable(best).0,
            baseline_count: m.baselines@.len(),
            segment_count: m.segments@.len(),
            purge_barrier_revision: m.purge_barrier_revision,
            note: match recoverable(best).1 {
                Some(note) => Some(note),
                None => optional_text(m.last_recovery_note),
            },
        },
    }
}

/// What there is to recover from.
pub fn status(
    manifest: &Result<RecoveryManifest, CoreError>,
    best: &Result<RecoveryPlan, CoreError>,
    live_revision: u64,
) -> (r: RecoveryStatus)
    ensures
        r@ == status_of(*manifest, *best, live_revision),
{
    match manifest {
        Err(e) => RecoveryStatus {
            state: RecoveryState::Unavailable,
            live_revision,
            manifest_revision: None,
            recoverable_revision: None,
            baseline_count: 0,
            segment_count: 0,
            purge_barrier_revision: None,
            note: Some(e.to_string()),
        },
        Ok(m) => {
            let (recoverable_revision, chain_note) = best_recoverable_revision(best);
            let state = match recoverable_revision {
                None => RecoveryState::Unavailable,
                Some(revision) => if revision < m.recovery_revision {
                    RecoveryState::Degraded
                } else if m.recovery_revision < live_revision {
                    RecoveryState::Lagging
                } else if m.recovery_revision == live_revision {
                    RecoveryState::Current
                } else {
                    RecoveryState::Degraded
                },
            };
            let note = match chain_note {
                Some(note) => Some(note),
                None => clone_optional_text(&m.last_recovery_note),
            };
            RecoveryStatus {
                state,
                live_revision,
                manifest_revision: Some(m.recovery_revision),
                recoverable_revision,
                baseline_count: m.baselines.len(),
                segment_count: m.segments.len(),
                purge_barrier_revision: m.purge_barrier_revision,
                note,
            }
        },
    }
}

/// What is to be done to the recovery material.
pub enum RecoveryAction {
    Nothing,
    /// Make one new baseline of the live store, and drop everything else.
    Reset { purge_barrier_revision: Option<u64>, note: Option<String> },
    /// Write one more segment.
    Append(ProjectionPatch),
}

pub enum ActionView {
    Nothing,
    Reset { purge_barrier_revision: Option<u64>, note: Option<Seq<char>> },
    Append(PatchView),
}

impl View for RecoveryAction {
    type V = ActionView;

    open spec fn view(&self) -> ActionView {
        match *self {
            RecoveryAction::Nothing => ActionView::Nothing,
            RecoveryAction::Reset { purge_barrier_revision, note } => ActionView::Reset {
                purge_barrier_revision,
                note: optional_text(note),
            },
            RecoveryAction::Append(patch) => ActionView::Append(patch@),
        }
    }
}

/// Whether a patch says that some Node is gone.
pub open spec fn purges(p: PatchView) -> bool {
    exists|id: NodeId| #[trigger] gone(p, id)
}

/// What brings the material up with the live store: nothing where it is; a reset where it is ahead
/// of it, where the journal does not reach back, or where a Node was purged in between, so that
/// nothing of it stays; and otherwise a segment of what changed.
pub open spec fn catch_up_action(m: ManifestView, live: RecordModel) -> ActionView {
    if m.recovery_revision == live.revision {
        ActionView::Nothing
    } else if m.recovery_revision > live.revision {
        ActionView::Reset {
            purge_barrier_revision: m.purge_barrier_revision,
            note: Some(
                "recovery checkpoint was ahead of live canonical truth and was reset"@,
            ),
        }
    } else {
        match delta_since(live, m.recovery_revision) {
            DeltaView::Current(_) => ActionView::Nothing,
            DeltaView::Unavailable { current_revision } => ActionView::Reset {
                purge_barrier_revision: m.purge_barrier_revision,
                note: Some(
                    "change journal could not bridge to revision "@ + decimal_of(
                        current_revision as nat,
                    ) + "; a clean baseline was created"@,
                ),
            },
            DeltaView::Available(p) => if purges(p) {
                ActionView::Reset {
                    purge_barrier_revision: Some(p.target_revision),
                    note: Some("recovery reset across a retained purge revision"@),
                }
            } else {
                ActionView::Append(p)
            },
        }
    }
}

/// Whether a patch says that some Node is gone.
fn has_purge(patch: &ProjectionPatch) -> (r: bool)
    requires
        patch.wf(),
    ensures
        r == purges(patch@),
{
    let table = &patch.nodes;
    let mut i: usize = 0;
    while i < table.len()
        invariant
            patch.wf(),
            table == &patch.nodes,
            i <= table.keys().len(),
            forall|j: int| 0 <= j < i ==> !gone(patch@, #[trigger] table.keys()[j]),
        decreases table.keys().len() - i,
    {
        proof {
            table.lemma_view();
        }
        if table.row_at(i).row.is_none() {
            proof {
                assert(gone(patch@, table.keys()[i as int]));
            }
            return true;
        }
        i = i + 1;
    }
    proof {
        table.lemma_view();
        assert forall|id: NodeId| !#[trigger] gone(patch@, id) by {
            if gone(patch@, id) {
                assert(table.keys().contains(id));
                let j = table.keys().index_of(id);
                assert(table.keys()[j] == id);
            }
        }
    }
    false
}

/// What brings the material up with the live store.
pub fn catch_up(manifest: &RecoveryManifest, records: &RecordStore) -> (r: RecoveryAction)
    requires
        records.wf(),
    ensures
        r@ == catch_up_action(manifest@, records@),
        r is Append ==> r->Append_0.wf() && !purges(r->Append_0@),
{
    let live: u64 = records.current_revision();
    if manifest.recovery_revision == live {
        return RecoveryAction::Nothing;
    }
    if manifest.recovery_revision > live {
        return RecoveryAction::Reset {
            purge_barrier_revision: manifest.purge_barrier_revision,
            note: Some(
                "recovery checkpoint was ahead of live canonical truth and was reset".to_owned(),
            ),
        };
    }
    match records.projection_delta_since(manifest.recovery_revision) {
        JournalDelta::Current(_) => RecoveryAction::Nothing,
        JournalDelta::Unavailable { current_revision } => {
            let revision = decimal(current_revision as u128);
            RecoveryAction::Reset {
                purge_barrier_revision: manifest.purge_barrier_revision,
                note: Some(
                    join3(
                        "change journal could not bridge to revision ",
                        revision.as_str(),
                        "; a clean baseline was created",
                    ),
                ),
            }
        },
        JournalDelta::Available(patch) => if has_purge(&patch) {
            RecoveryAction::Reset {
                purge_barrier_revision: Some(patch.target_revision),
                note: Some("recovery reset across a retained purge revision".to_owned()),
            }
        } else {
            RecoveryAction::Append(patch)
        },
    }
}

/// What is done at the start, where the material is not read: the same.
pub fn reconcile_startup(manifest: &RecoveryManifest, records: &RecordStore) -> (r: RecoveryAction)
    requires
        records.wf(),
    ensures
        r@ == catch_up_action(manifest@, records@),
        r is Append ==> r->Append_0.wf() && !purges(r->Append_0@),
{
    catch_up(manifest, records)
}

/// What is done once the material was read: a reset where it does not reach what its manifest
/// promises, and otherwise what brings it up with the live store.
pub open spec fn reconcile_action(
    m: ManifestView,
    live: RecordModel,
    best: Result<RecoveryPlan, CoreError>,
) -> ActionView {
    if recoverable(best).0 != Some(m.recovery_revision) {
        ActionView::Reset {
            purge_barrier_revision: m.purge_barrier_revision,
            note: match recoverable(best).1 {
                Some(note) => Some(note),
                None => Some(
                    "recovery artifacts did not reach their advertised revision; rebuilt from live canonical truth"@,
                ),
            },
        }
    } else {
        catch_up_action(m, live)
    }
}

/// What is done once the material was read.
pub fn reconcile(
    manifest: &RecoveryManifest,
    records: &RecordStore,
    best: &Result<RecoveryPlan, CoreError>,
) -> (r: RecoveryAction)
    requires
        records.wf(),
    ensures
        r@ == reconcile_action(manifest@, records@, *best),
        r is Append ==> r->Append_0.wf() && !purges(r->Append_0@),
{
    let (reached, note) = best_recoverable_revision(best);
    let whole = match reached {
        Some(revision) => revision == manifest.recovery_revision,
        None => false,
    };
    if !whole {
        let note = match note {
            Some(note) => note,
            None =>
                "recovery artifacts did not reach their advertised revision; rebuilt from live canonical truth".to_owned(),
        };
        return RecoveryAction::Reset {
            purge_barrier_revision: manifest.purge_barrier_revision,
            note: Some(note),
        };
    }
    catch_up(manifest, records)
}

/// What is done first, given whether there is a manifest that can be read.
pub open spec fn initial_action(has_manifest: bool) -> ActionView {
    if has_manifest {
        ActionView::Nothing
    } else {
        ActionView::Reset {
            purge_barrier_revision: None,
            note: Some("recovery metadata was initialized from live canonical truth"@),
        }
    }
}

/// What is done where there is no manifest that can be read.
pub fn ensure_initialized(manifest: &Result<RecoveryManifest, CoreError>) -> (r: RecoveryAction)
    ensures
        r@ == initial_action(*manifest is Ok),
{
    match manifest {
        Ok(_) => RecoveryAction::Nothing,
        Err(_) => RecoveryAction::Reset {
            purge_barrier_revision: None,
            note: Some(
                "recovery metadata was initialized from live canonical truth".to_owned(),
            ),
        },
    }
}

/// What is said of a store that was reconstructed: what its plan says, or else, where it does not
/// reach what the manifest advertises, where it stops.
pub open spec fn reconstruction_note(m: ManifestView, plan: PlanView) -> Option<Seq<char>> {
    if plan.note is Some {
        plan.note
    } else if plan.recovered_revision < m.recovery_revision {
        Some(
            "recovery stopped at verified revision "@ + decimal_of(plan.recovered_revision as nat)
                + "; manifest advertised revision "@ + decimal_of(m.recovery_revision as nat),
        )
    } else {
        None
    }
}

/// What is done after a reconstruction.
pub open spec fn reconstruction_action(m: ManifestView, plan: PlanView) -> ActionView {
    ActionView::Reset {
        purge_barrier_revision: match m.purge_barrier_revision {
            Some(barrier) => if barrier <= plan.recovered_revision {
                Some(barrier)
            } else {
                None
            },
            None => None,
        },
        note: reconstruction_note(m, plan),
    }
}

/// What follows a reconstruction: new material of the store that came of it, behind the purge
/// barrier where the store reaches it.
pub fn follow_reconstruction(manifest: &RecoveryManifest, plan: &RecoveryPlan) -> (r: RecoveryAction)
    ensures
        r@ == reconstruction_action(manifest@, plan@),
{
    let barrier: Option<u64> = match manifest.purge_barrier_revision {
        Some(barrier) => if barrier <= plan.recovered_revision {
            Some(barrier)
        } else {
            None
        },
        None => None,
    };
    let note = if plan.note.is_some() {
        clone_optional_text(&plan.note)
    } else if plan.recovered_revision < manifest.recovery_revision {
        let recovered = decimal(plan.recovered_revision as u128);
        let advertised = decimal(manifest.recovery_revision as u128);
        let mut text = join3(
            "recovery stopped at verified revision ",
            recovered.as_str(),
            "; manifest advertised revision ",
        );
        text.append(advertised.as_str());
        Some(text)
    } else {
        None
    };
    RecoveryAction::Reset { purge_barrier_revision: barrier, note }
}

/// What to do about the canonical database when a library is opened.
#[derive(Debug, Clone, Copy, PartialEq, Eq, Structural)]
pub enum OpenStep {
    /// Take the store that was opened, or give up with what opening it said.
    Take,
    /// Reconstruct the store from recovery material, and open that.
    Reconstruct,
}

/// What is done before a store is opened.
pub open spec fn step_before(record_file_exists: bool, manifest_exists: bool) -> OpenStep {
    if !record_file_exists && manifest_exists {
        OpenStep::Reconstruct
    } else {
        OpenStep::Take
    }
}

/// Whether a store that is not there is reconstructed before it is opened: where there is something
/// to reconstruct it from.
pub fn before_opening(record_file_exists: bool, manifest_exists: bool) -> (r: OpenStep)
    ensures
        r == step_before(record_file_exists, manifest_exists),
{
    if !record_file_exists && manifest_exists {
        OpenStep::Reconstruct
    } else {
        OpenStep::Take
    }
}

/// What is done once it was tried to open a store.
pub open spec fn step_after(opened: Result<(), CoreError>, manifest_exists: bool) -> OpenStep {
    if opened is Err && !(opened->Err_0@ is UnsupportedSchema) && manifest_exists {
        OpenStep::Reconstruct
    } else {
        OpenStep::Take
    }
}

/// Whether a store that could not be opened is reconstructed: where there is something to
/// reconstruct it from, unless its schema is of a version that is not supported, which is no damage.
pub fn after_opening(opened: &Result<(), CoreError>, manifest_exists: bool) -> (r: OpenStep)
    ensures
        r == step_after(*opened, manifest_exists),
{
    match opened {
        Ok(_) => OpenStep::Take,
        Err(e) => match e {
            CoreError::UnsupportedSchema { .. } => OpenStep::Take,
            _ => if manifest_exists {
                OpenStep::Reconstruct
            } else {
                OpenStep::Take
            },
        },
    }
}

/// What completes a purge: a reset at the revision that purged, so that no material holds what
/// was purged.
pub fn complete_purge_barrier(records: &RecordStore, revision: u64) -> (r: Result<
    RecoveryAction,
    CoreError,
>)
    ensures
        match r {
            Ok(action) => records@.revision == revision && action@ == (ActionView::Reset {
                purge_barrier_revision: Some(revision),
                note: None,
            }),
            Err(e) => records@.revision != revision && e@ == recovery_fault(
                "purge barrier revision does not match canonical truth"@,
            ),
        },
{
    if records.current_revision() != revision {
        return Err(
            recovery_corrupt("purge barrier revision does not match canonical truth".to_owned()),
        );
    }
    Ok(RecoveryAction::Reset { purge_barrier_revision: Some(revision), note: None })
}

/// The manifest of one new baseline.
pub open spec fn reset_manifest(
    generation: u64,
    baseline: BaselineView,
    barrier: Option<u64>,
    note: Option<Seq<char>>,
) -> ManifestView {
    ManifestView {
        format_version: RECOVERY_FORMAT_VERSION,
        record_schema_version: RECORD_SCHEMA_VERSION,
        generation,
        recovery_revision: baseline.revision,
        purge_barrier_revision: barrier,
        baselines: seq![baseline],
        segments: Seq::empty(),
        last_recovery_note: note,
    }
}

/// The baselines of a manifest at their ages.
#[derive(Debug, Clone, Copy, PartialEq, Eq, Structural)]
pub struct BaselineAge {
    pub revision: u64,
    pub index: usize,
}

impl View for BaselineAge {
    type V = BaselineAge;

    open spec fn view(&self) -> BaselineAge {
        *self
    }
}

impl TableKey for BaselineAge {
    open spec fn before(a: BaselineAge, b: BaselineAge) -> bool {
        if a.revision != b.revision {
            a.revision < b.revision
        } else {
            a.index < b.index
        }
    }

    proof fn before_irreflexive(a: BaselineAge) {
    }

    proof fn before_transitive(a: BaselineAge, b: BaselineAge, c: BaselineAge) {
    }

    proof fn before_total(a: BaselineAge, b: BaselineAge) {
    }

    fn is_before(&self, other: &BaselineAge) -> (r: bool) {
        if self.revision != other.revision {
            self.revision < other.revision
        } else {
            self.index < other.index
        }
    }

    fn copy_key(&self) -> (r: BaselineAge) {
        *self
    }
}

/// The ages of some baselines.
pub open spec fn ages(baselines: Seq<BaselineView>) -> Set<BaselineAge> {
    Set::new(
        |p: BaselineAge|
            p.index < baselines.len() && p.revision == baselines[p.index as int].revision,
    )
}

/// Some baselines, the oldest first.
pub open spec fn by_age(baselines: Seq<BaselineView>) -> Seq<BaselineView> {
    let order = in_order::<BaselineAge>(ages(baselines));
    Seq::new(order.len(), |i: int| baselines[order[i].index as int])
}

/// The name of the file that the next baseline takes: the second one where it is free, and
/// otherwise that of the oldest baseline.
pub open spec fn next_slot(baselines: Seq<BaselineView>) -> Seq<char> {
    if !exists|i: int|
        0 <= i < baselines.len() && (#[trigger] baselines[i]).filename == "baseline-B.sqlite"@ {
        "baseline-B.sqlite"@
    } else {
        by_age(baselines)[0].filename
    }
}

/// The baselines once a new one took a file: the oldest first, and no more than two where there
/// were no more than that.
pub open spec fn rotated_baselines(
    baselines: Seq<BaselineView>,
    slot: Seq<char>,
    new: BaselineView,
) -> Seq<BaselineView> {
    let all = by_age(baselines.filter(|b: BaselineView| b.filename != slot).push(new));
    if all.len() > 2 {
        all.subrange(1, all.len() as int)
    } else {
        all
    }
}

/// The manifest once a new baseline took a file: segments that end by the oldest baseline go.
pub open spec fn rotated(m: ManifestView, slot: Seq<char>, new: BaselineView) -> ManifestView {
    let baselines = rotated_baselines(m.baselines, slot, new);
    ManifestView {
        baselines,
        segments: m.segments.filter(
            |s: SegmentView| s.through_revision > baselines[0].revision,
        ),
        generation: (m.generation + 1) as u64,
        ..m
    }
}

/// The revision of the latest of some baselines.
pub open spec fn newest(baselines: Seq<BaselineView>) -> u64
    decreases baselines.len(),
{
    if baselines.len() == 0 {
        0
    } else {
        let before = newest(baselines.drop_last());
        if baselines.last().revision > before {
            baselines.last().revision
        } else {
            before
        }
    }
}

/// How many segments end after a revision.
pub open spec fn ending_after(segments: Seq<SegmentView>, revision: u64) -> nat {
    segments.filter(|s: SegmentView| s.through_revision > revision).len()
}

/// The manifest with one more segment.
pub open spec fn appended(m: ManifestView, segment: SegmentView) -> ManifestView {
    ManifestView {
        recovery_revision: segment.through_revision,
        generation: (m.generation + 1) as u64,
        segments: m.segments.push(segment),
        last_recovery_note: None,
        ..m
    }
}

/// Whether a manifest has as many segments after its latest baseline as one baseline may have.
pub open spec fn due(m: ManifestView) -> bool {
    ending_after(m.segments, newest(m.baselines)) >= SEGMENTS_PER_BASELINE
}

/// Some baselines, the oldest first.
fn sorted_by_age(baselines: &Vec<BaselineArtifact>) -> (r: Vec<BaselineArtifact>)
    ensures
        baselines_view(r@) == by_age(baselines_view(baselines@)),
        r@.len() == baselines@.len(),
{
    let ghost all = baselines_view(baselines@);
    let mut places: Table<BaselineAge, Present> = Table::new();
    let mut i: usize = 0;
    while i < baselines.len()
        invariant
            all == baselines_view(baselines@),
            i <= baselines@.len(),
            places.wf(),
            places@.dom().len() == i,
            places@.dom().finite(),
            forall|p: BaselineAge| #[trigger]
                places@.dom().contains(p) <==> p.index < i && p.revision
                    == all[p.index as int].revision,
        decreases baselines@.len() - i,
    {
        let age = BaselineAge { revision: baselines[i].revision, index: i };
        places.insert(age, Present);
        i = i + 1;
    }
    proof {
        places.lemma_view();
        assert(places@.dom() =~= ages(all));
    }
    let mut r: Vec<BaselineArtifact> = Vec::new();
    let mut k: usize = 0;
    while k < places.len()
        invariant
            all == baselines_view(baselines@),
            places.wf(),
            places@.dom() == ages(all),
            k <= places.keys().len(),
            r@.len() == k,
            forall|j: int|
                0 <= j < k ==> (#[trigger] r@[j])@ == all[places.keys()[j].index as int],
        decreases places.keys().len() - k,
    {
        let place = *places.key_at(k);
        proof {
            assert(ages(all).contains(place));
        }
        r.push(baselines[place.index].clone());
        k = k + 1;
    }
    proof {
        places.lemma_view();
        assert(baselines_view(r@) =~= by_age(all));
    }
    r
}

impl RecoveryManifest {
    /// The manifest of one new baseline, after the one of a generation, if there was one.
    pub fn reset(
        previous_generation: Option<u64>,
        baseline: BaselineArtifact,
        purge_barrier_revision: Option<u64>,
        note: Option<String>,
    ) -> (r: RecoveryManifest)
        requires
            previous_generation is Some ==> previous_generation->0 < u64::MAX,
        ensures
            r@ == reset_manifest(
                match previous_generation {
                    Some(generation) => (generation + 1) as u64,
                    None => 1,
                },
                baseline@,
                purge_barrier_revision,
                optional_text(note),
            ),
    {
        let generation: u64 = match previous_generation {
            Some(generation) => generation + 1,
            None => 1,
        };
        let revision: u64 = baseline.revision;
        let mut baselines: Vec<BaselineArtifact> = Vec::new();
        baselines.push(baseline);
        let segments: Vec<SegmentArtifact> = Vec::new();
        proof {
            assert(baselines_view(baselines@) =~= seq![baseline@]);
            assert(segments_view(segments@) =~= Seq::<SegmentView>::empty());
        }
        RecoveryManifest {
            format_version: RECOVERY_FORMAT_VERSION,
            record_schema_version: RECORD_SCHEMA_VERSION,
            generation,
            recovery_revision: revision,
            purge_barrier_revision,
            baselines,
            segments,
            last_recovery_note: note,
        }
    }

    /// Adds a segment that was written, and says whether a new baseline is due.
    pub fn append(&mut self, segment: SegmentArtifact) -> (r: bool)
        requires
            old(self).generation < u64::MAX,
        ensures
            final(self)@ == appended(old(self)@, segment@),
            r == due(final(self)@),
    {
        let ghost before = self.segments@;
        self.recovery_revision = segment.through_revision;
        self.generation = self.generation + 1;
        self.segments.push(segment);
        self.last_recovery_note = None;
        proof {
            assert(segments_view(self.segments@) =~= segments_view(before).push(segment@));
        }
        self.rotation_due()
    }

    /// Whether a new baseline is due.
    pub fn rotation_due(&self) -> (r: bool)
        ensures
            r == due(self@),
    {
        let ghost baselines = self@.baselines;
        let ghost segments = self@.segments;
        let mut latest: u64 = 0;
        let mut i: usize = 0;
        while i < self.baselines.len()
            invariant
                baselines == self@.baselines,
                i <= self.baselines@.len(),
                latest == newest(baselines.subrange(0, i as int)),
            decreases self.baselines@.len() - i,
        {
            proof {
                let s = baselines.subrange(0, i + 1);
                assert(s.drop_last() =~= baselines.subrange(0, i as int));
                assert(s.last() == self.baselines@[i as int]@);
            }
            if self.baselines[i].revision > latest {
                latest = self.baselines[i].revision;
            }
            i = i + 1;
        }
        proof {
            assert(baselines.subrange(0, i as int) =~= baselines);
        }
        let ghost later = |s: SegmentView| s.through_revision > latest;
        let mut count: usize = 0;
        let mut k: usize = 0;
        proof {
            reveal(Seq::filter);
            assert(segments.subrange(0, 0).filter(later).len() == 0);
        }
        while k < self.segments.len()
            invariant
                segments == self@.segments,
                later == (|s: SegmentView| s.through_revision > latest),
                k <= self.segments@.len(),
                count <= k,
                count == segments.subrange(0, k as int).filter(later).len(),
            decreases self.segments@.len() - k,
        {
            proof {
                let s = self.segments@[k as int]@;
                assert(segments.subrange(0, k + 1) =~= segments.subrange(0, k as int).push(s));
                segments.subrange(0, k as int).lemma_filter_push(s, later);
            }
            if self.segments[k].through_revision > latest {
                count = count + 1;
            }
            k = k + 1;
        }
        proof {
            assert(segments.subrange(0, k as int) =~= segments);
        }
        count >= SEGMENTS_PER_BASELINE
    }

    /// The name of the file that the next baseline takes.
    pub fn rotation_slot(&self) -> (r: String)
        ensures
            r@ == next_slot(self@.baselines),
    {
        let ghost baselines = self@.baselines;
        let mut taken = false;
        let mut i: usize = 0;
        while i < self.baselines.len()
            invariant
                baselines == self@.baselines,
                i <= self.baselines@.len(),
                taken == exists|j: int|
                    0 <= j < i && (#[trigger] baselines[j]).filename == "baseline-B.sqlite"@,
            decreases self.baselines@.len() - i,
        {
            proof {
                assert(baselines[i as int].filename == self.baselines@[i as int].filename@);
            }
            if same_text(self.baselines[i].filename.as_str(), "baseline-B.sqlite") {
                taken = true;
            }
            i = i + 1;
        }
        if !taken {
            return "baseline-B.sqlite".to_owned();
        }
        let sorted = sorted_by_age(&self.baselines);
        proof {
            assert(sorted@.len() > 0);
            assert(baselines_view(sorted@)[0].filename == sorted@[0].filename@);
        }
        sorted[0].filename.clone()
    }

    /// Lets a new baseline take a file.
    pub fn rotate(&mut self, slot: &str, baseline: BaselineArtifact)
        requires
            old(self).generation < u64::MAX,
        ensures
            final(self)@ == rotated(old(self)@, slot@, baseline@),
    {
        let ghost before = self@;
        let ghost other = |b: BaselineView| b.filename != slot@;
        let mut kept: Vec<BaselineArtifact> = Vec::new();
        let mut i: usize = 0;
        proof {
            reveal(Seq::filter);
            assert(baselines_view(kept@) =~= before.baselines.subrange(0, 0).filter(other));
        }
        while i < self.baselines.len()
            invariant
                *self == *old(self),
                before == self@,
                other == (|b: BaselineView| b.filename != slot@),
                i <= self.baselines@.len(),
                baselines_view(kept@) == before.baselines.subrange(0, i as int).filter(other),
            decreases self.baselines@.len() - i,
        {
            let ghost b = self.baselines@[i as int]@;
            proof {
                assert(before.baselines.subrange(0, i + 1) =~= before.baselines.subrange(
                    0,
                    i as int,
                ).push(b));
                before.baselines.subrange(0, i as int).lemma_filter_push(b, other);
            }
            if !same_text(self.baselines[i].filename.as_str(), slot) {
                let ghost was = kept@;
                kept.push(self.baselines[i].clone());
                proof {
                    assert(baselines_view(kept@) =~= baselines_view(was).push(b));
                }
            }
            i = i + 1;
        }
        proof {
            assert(before.baselines.subrange(0, i as int) =~= before.baselines);
        }
        let ghost others = baselines_view(kept@);
        kept.push(baseline);
        proof {
            assert(baselines_view(kept@) =~= others.push(baseline@));
        }
        let mut sorted = sorted_by_age(&kept);
        if sorted.len() > 2 {
            let ghost was = sorted@;
            sorted.remove(0);
            proof {
                assert(baselines_view(sorted@) =~= baselines_view(was).subrange(
                    1,
                    was.len() as int,
                ));
            }
        }
        proof {
            assert(baselines_view(sorted@) == rotated_baselines(
                before.baselines,
                slot@,
                baseline@,
            ));
            assert(baselines_view(sorted@)[0].revision == sorted@[0].revision);
        }
        let oldest: u64 = sorted[0].revision;
        let ghost later = |s: SegmentView| s.through_revision > oldest;
        let mut segments: Vec<SegmentArtifact> = Vec::new();
        let mut k: usize = 0;
        proof {
            reveal(Seq::filter);
            assert(segments_view(segments@) =~= before.segments.subrange(0, 0).filter(later));
        }
        while k < self.segments.len()
            invariant
                *self == *old(self),
                before == self@,
                later == (|s: SegmentView| s.through_revision > oldest),
                k <= self.segments@.len(),
                segments_view(segments@) == before.segments.subrange(0, k as int).filter(later),
            decreases self.segments@.len() - k,
        {
            let ghost s = self.segments@[k as int]@;
            proof {
                assert(before.segments.subrange(0, k + 1) =~= before.segments.subrange(
                    0,
                    k as int,
                ).push(s));
                before.segments.subrange(0, k as int).lemma_filter_push(s, later);
            }
            if self.segments[k].through_revision > oldest {
                let ghost was = segments@;
                segments.push(self.segments[k].clone());
                proof {
                    assert(segments_view(segments@) =~= segments_view(was).push(s));
                }
            }
            k = k + 1;
        }
        proof {
            assert(before.segments.subrange(0, k as int) =~= before.segments);
        }
        self.baselines = sorted;
        self.segments = segments;
        self.generation = self.generation + 1;
    }
}

} // verus!
