//! What holds of the recovery material as it is kept.
use vstd::prelude::*;
use crate::error::CoreError;
use crate::paging::lemma_in_order_lists;
use crate::record_store::history::lemma_filter_comes_of;
use crate::recovery::artifacts::{
    BaselineView, ManifestView, RecoverySegment, SegmentView, MAX_RECOVERY_SEGMENTS,
    SEGMENTS_PER_BASELINE,
};
use crate::recovery::manager::{
    ages, appended, by_age, due, ending_after, newest, next_slot, reset_manifest, rotated,
    BaselineAge,
};
use crate::recovery::plan::{
    baseline_order, best_result, segment_order, try_baselines, BaselineFacts, BaselinePlace,
    SegmentPlace,
};
use crate::table::{in_order, lemma_lists_in_order, lists};

verus! {

/// Whether a manifest names no more than it may: one or two baselines, the oldest first; only
/// segments that end after the oldest, by the revision that the manifest promises; fewer after
/// the latest baseline than a new one is due at, and no more than that between the two.
pub open spec fn bounded(m: ManifestView) -> bool {
    &&& 1 <= m.baselines.len() <= 2
    &&& m.baselines.len() == 2 ==> m.baselines[0].revision <= m.baselines[1].revision
    &&& m.baselines.last().revision <= m.recovery_revision
    &&& forall|i: int|
        0 <= i < m.segments.len() ==> m.baselines[0].revision < (
        #[trigger] m.segments[i]).through_revision <= m.recovery_revision
    &&& ending_after(m.segments, m.baselines.last().revision) < SEGMENTS_PER_BASELINE
    &&& m.segments.len() <= SEGMENTS_PER_BASELINE + ending_after(
        m.segments,
        m.baselines.last().revision,
    )
}

proof fn lemma_ages_finite(s: Seq<BaselineView>)
    requires
        s.len() <= usize::MAX,
    ensures
        ages(s).finite(),
        ages(s).len() == s.len(),
    decreases s.len(),
{
    if s.len() == 0 {
        assert(ages(s) =~= Set::empty());
    } else {
        let t = s.drop_last();
        lemma_ages_finite(t);
        let last = BaselineAge {
            revision: s.last().revision,
            index: (s.len() - 1) as usize,
        };
        assert(ages(s) =~= ages(t).insert(last)) by {
            assert forall|p: BaselineAge| ages(s).contains(p) <==> ages(t).insert(last).contains(
                p,
            ) by {
                if p.index < t.len() {
                    assert(s[p.index as int] == t[p.index as int]);
                }
            }
        }
        assert(!ages(t).contains(last));
    }
}

/// Sorted by age, baselines are the same baselines, each not older than the one before it.
pub(crate) proof fn lemma_by_age(s: Seq<BaselineView>)
    requires
        s.len() <= usize::MAX,
    ensures
        by_age(s).len() == s.len(),
        forall|i: int, j: int|
            0 <= i < j < s.len() ==> (#[trigger] by_age(s)[i]).revision <= (
            #[trigger] by_age(s)[j]).revision,
        forall|i: int| 0 <= i < s.len() ==> s.contains(#[trigger] by_age(s)[i]),
        forall|i: int| 0 <= i < s.len() ==> by_age(s).contains(#[trigger] s[i]),
{
    lemma_ages_finite(s);
    lemma_in_order_lists::<BaselineAge>(ages(s));
    let order = in_order::<BaselineAge>(ages(s));
    assert forall|i: int| 0 <= i < order.len() implies ages(s).contains(#[trigger] order[i]) by {
        assert(order.contains(order[i]));
    }
    assert forall|i: int, j: int| 0 <= i < j < s.len() implies (#[trigger] by_age(s)[i]).revision
        <= (#[trigger] by_age(s)[j]).revision by {
        assert(ages(s).contains(order[i]) && ages(s).contains(order[j]));
        assert(<BaselineAge as crate::table::TableKey>::before(order[i], order[j]));
    }
    assert forall|i: int| 0 <= i < s.len() implies s.contains(#[trigger] by_age(s)[i]) by {
        assert(ages(s).contains(order[i]));
        assert(s[order[i].index as int] == by_age(s)[i]);
    }
    assert forall|i: int| 0 <= i < s.len() implies by_age(s).contains(#[trigger] s[i]) by {
        let p = BaselineAge { revision: s[i].revision, index: i as usize };
        assert(ages(s).contains(p));
        assert(order.contains(p));
        let k = order.index_of(p);
        assert(by_age(s)[k] == s[i]);
    }
}

proof fn lemma_newest(s: Seq<BaselineView>)
    requires
        1 <= s.len() <= 2,
        s.len() == 2 ==> s[0].revision <= s[1].revision,
    ensures
        newest(s) == s.last().revision,
{
    reveal_with_fuel(newest, 3);
    if s.len() == 2 {
        assert(s.drop_last().last() == s[0]);
    }
}

proof fn lemma_all_end_after(segments: Seq<SegmentView>, revision: u64)
    ensures
        ending_after(segments, revision) <= segments.len(),
        (forall|i: int|
            0 <= i < segments.len() ==> (#[trigger] segments[i]).through_revision > revision)
            ==> ending_after(segments, revision) == segments.len(),
        (forall|i: int|
            0 <= i < segments.len() ==> (#[trigger] segments[i]).through_revision <= revision)
            ==> ending_after(segments, revision) == 0,
    decreases segments.len(),
{
    reveal(Seq::filter);
    if segments.len() > 0 {
        let rest = segments.drop_last();
        lemma_all_end_after(rest, revision);
        assert forall|i: int| 0 <= i < rest.len() implies #[trigger] rest[i] == segments[i] by {}
        let later = |s: SegmentView| s.through_revision > revision;
        assert(segments.filter(later) == if later(segments.last()) {
            rest.filter(later).push(segments.last())
        } else {
            rest.filter(later)
        });
        assert(segments.last() == segments[segments.len() - 1]);
    }
}

proof fn lemma_filter_end_after(segments: Seq<SegmentView>, low: u64, high: u64)
    requires
        low <= high,
    ensures
        ({
            let kept = segments.filter(|s: SegmentView| s.through_revision > low);
            &&& kept.len() == ending_after(segments, low)
            &&& ending_after(kept, high) == ending_after(segments, high)
            &&& forall|i: int|
                0 <= i < kept.len() ==> segments.contains(#[trigger] kept[i])
                    && kept[i].through_revision > low
        }),
    decreases segments.len(),
{
    let over = |s: SegmentView| s.through_revision > low;
    let later = |s: SegmentView| s.through_revision > high;
    reveal(Seq::filter);
    if segments.len() > 0 {
        let rest = segments.drop_last();
        lemma_filter_end_after(rest, low, high);
        let last = segments.last();
        let was = rest.filter(over);
        let kept = segments.filter(over);
        if over(last) {
            was.lemma_filter_push(last, later);
            assert(kept == was.push(last));
        }
        assert forall|i: int| 0 <= i < kept.len() implies segments.contains(#[trigger] kept[i])
            && kept[i].through_revision > low by {
            if i < was.len() {
                assert(kept[i] == was[i]);
                assert(rest.contains(was[i]));
                let j = rest.index_of(was[i]);
                assert(segments[j] == was[i]);
            } else {
                assert(segments[segments.len() - 1] == last);
            }
        }
    }
}

/// Material that was just reset names no more than it may.
pub proof fn law_reset_is_bounded(
    generation: u64,
    baseline: BaselineView,
    barrier: Option<u64>,
    note: Option<Seq<char>>,
)
    ensures
        bounded(reset_manifest(generation, baseline, barrier, note)),
{
    let m = reset_manifest(generation, baseline, barrier, note);
    lemma_all_end_after(m.segments, m.baselines.last().revision);
}

/// Adding a segment that goes on where the material ends, and then, where it is due, a new baseline
/// at the revision reached, never leaves more than two baselines or more segments than a manifest
/// may name.
pub proof fn law_material_stays_bounded(m: ManifestView, segment: SegmentView, new: BaselineView)
    requires
        bounded(m),
        m.generation < u64::MAX - 1,
        segment.through_revision > m.recovery_revision,
        new.revision == segment.through_revision,
    ensures
        ({
            let a = appended(m, segment);
            let n = if due(a) {
                rotated(a, next_slot(a.baselines), new)
            } else {
                a
            };
            &&& bounded(n)
            &&& n.baselines.len() <= 2
            &&& n.segments.len() <= MAX_RECOVERY_SEGMENTS
            &&& a.segments.len() <= MAX_RECOVERY_SEGMENTS
            &&& due(a) ==> n.baselines.last().revision == new.revision
        }),
{
    let a = appended(m, segment);
    let latest = m.baselines.last().revision;
    let later = |s: SegmentView| s.through_revision > latest;
    lemma_newest(m.baselines);
    m.segments.lemma_filter_push(segment, later);
    assert(later(segment));
    assert(ending_after(a.segments, latest) == ending_after(m.segments, latest) + 1);
    assert forall|i: int| 0 <= i < a.segments.len() implies m.baselines[0].revision < (
    #[trigger] a.segments[i]).through_revision <= a.recovery_revision by {
        if i < m.segments.len() {
            assert(a.segments[i] == m.segments[i]);
        } else {
            assert(m.baselines[0].revision <= m.recovery_revision);
        }
    }
    if due(a) {
        let slot = next_slot(a.baselines);
        let n = rotated(a, slot, new);
        let others = a.baselines.filter(|b: BaselineView| b.filename != slot);
        a.baselines.lemma_filter_len(|b: BaselineView| b.filename != slot);
        let all = others.push(new);
        lemma_by_age(all);
        let sorted = by_age(all);
        assert forall|i: int| 0 <= i < all.len() implies (#[trigger] all[i]).revision
            <= new.revision && (i < others.len() ==> a.baselines.contains(all[i])) by {
            if i < others.len() {
                assert(all[i] == others[i]);
                lemma_filter_comes_of(a.baselines, |b: BaselineView| b.filename != slot);
                assert(a.baselines.contains(others[i]));
                let j = a.baselines.index_of(others[i]);
                assert(a.baselines[j].revision <= a.baselines.last().revision);
            }
        }
        assert(all[all.len() - 1] == new);
        assert(sorted.contains(new));
        let at = sorted.index_of(new);
        assert(sorted[at].revision == new.revision);
        let last = sorted.last();
        assert(sorted[sorted.len() - 1] == last);
        assert(all.contains(last));
        let from = all.index_of(last);
        assert(all[from] == last);
        assert(last.revision <= new.revision);
        if at < sorted.len() - 1 {
            assert(sorted[at].revision <= sorted[sorted.len() - 1].revision);
        }
        assert(last.revision == new.revision);
        assert(n.baselines.last() == last);
        assert(1 <= n.baselines.len() <= 2);
        let oldest = n.baselines[0].revision;
        if n.baselines.len() == 2 && sorted.len() == 2 {
            assert(n.baselines[0] == sorted[0] && n.baselines[1] == sorted[1]);
        } else if n.baselines.len() == 2 {
            assert(n.baselines[0] == sorted[1] && n.baselines[1] == sorted[2]);
        }
        lemma_filter_end_after(a.segments, oldest, new.revision);
        lemma_all_end_after(a.segments, new.revision);
        assert forall|i: int| 0 <= i < n.segments.len() implies oldest < (
        #[trigger] n.segments[i]).through_revision <= n.recovery_revision by {
            assert(a.segments.contains(n.segments[i]));
            let j = a.segments.index_of(n.segments[i]);
            assert(a.segments[j] == n.segments[i]);
        }
        assert(ending_after(n.segments, new.revision) == 0);
        assert(ending_after(a.segments, oldest) <= SEGMENTS_PER_BASELINE) by {
            if oldest == new.revision {
            } else {
                lemma_rotation_keeps(a, slot, new, sorted);
                lemma_all_end_after(a.segments, oldest);
            }
        }
    } else {
        lemma_all_end_after(a.segments, latest);
    }
}

/// A rotation that keeps an older baseline keeps the latest one there was.
proof fn lemma_rotation_keeps(
    a: ManifestView,
    slot: Seq<char>,
    new: BaselineView,
    sorted: Seq<BaselineView>,
)
    requires
        1 <= a.baselines.len() <= 2,
        a.baselines.len() == 2 ==> a.baselines[0].revision <= a.baselines[1].revision,
        a.baselines.last().revision <= new.revision,
        slot == next_slot(a.baselines),
        sorted == by_age(a.baselines.filter(|b: BaselineView| b.filename != slot).push(new)),
        rotated(a, slot, new).baselines[0].revision != new.revision,
    ensures
        rotated(a, slot, new).baselines[0].revision >= a.baselines.last().revision,
{
    let keep = |b: BaselineView| b.filename != slot;
    let others = a.baselines.filter(keep);
    a.baselines.lemma_filter_len(keep);
    let all = others.push(new);
    lemma_by_age(all);
    reveal(Seq::filter);
    let n = rotated(a, slot, new);
    lemma_by_age(a.baselines);
    if a.baselines.len() == 1 {
        reveal_with_fuel(Seq::filter, 3);
        assert(n.baselines[0] == sorted[0]);
        assert(all.contains(sorted[0]));
        let i = all.index_of(sorted[0]);
        assert(all[i] == sorted[0]);
        lemma_filter_comes_of(a.baselines, keep);
        if i < others.len() {
            assert(a.baselines.contains(others[i]));
        }
    } else {
        let x = a.baselines[0];
        let y = a.baselines[1];
        assert(a.baselines =~= seq![x].push(y));
        reveal_with_fuel(Seq::filter, 3);
        assert(seq![x].drop_last() =~= Seq::<BaselineView>::empty());
        assert(a.baselines.drop_last() =~= seq![x]);
        assert(others == if keep(x) && keep(y) {
            seq![x, y]
        } else if keep(x) {
            seq![x]
        } else if keep(y) {
            seq![y]
        } else {
            Seq::empty()
        });
        let first = by_age(a.baselines)[0];
        assert(first.revision <= x.revision && first.revision <= y.revision) by {
            assert(by_age(a.baselines).contains(a.baselines[0]));
            assert(by_age(a.baselines).contains(a.baselines[1]));
            let i = by_age(a.baselines).index_of(x);
            let j = by_age(a.baselines).index_of(y);
            assert(by_age(a.baselines)[i] == x && by_age(a.baselines)[j] == y);
        }
        assert(a.baselines.contains(first));
        let b = n.baselines[0];
        if keep(x) && keep(y) {
            assert(sorted.len() == 3);
            assert(b == sorted[1]);
            assert(all =~= seq![x, y, new]);
            lemma_middle_of_three(all, x, y, new);
        } else {
            assert(sorted.len() <= 2);
            assert(b == sorted[0]);
            assert(all.contains(sorted[0]));
            let i = all.index_of(sorted[0]);
            assert(all[i] == sorted[0]);
            if i < others.len() {
                assert(others[i] == b);
                if keep(x) && !keep(y) {
                    assert(b == x);
                    assert(slot == y.filename);
                    if slot == "baseline-B.sqlite"@ {
                        assert(y.filename == a.baselines[1].filename);
                        lemma_slot_is_oldest(a.baselines);
                    } else {
                        lemma_slot_is_oldest(a.baselines);
                    }
                }
            }
        }
    }
}

/// Where the second file is taken, the slot is the file of a baseline that is not younger than any
/// other.
proof fn lemma_slot_is_oldest(baselines: Seq<BaselineView>)
    requires
        baselines.len() == 2,
        next_slot(baselines) == baselines[1].filename,
        next_slot(baselines) != baselines[0].filename,
        baselines[0].revision <= baselines[1].revision,
    ensures
        baselines[0].revision == baselines[1].revision,
{
    lemma_by_age(baselines);
    let first = by_age(baselines)[0];
    assert(baselines.contains(first));
    assert(exists|i: int|
        0 <= i < baselines.len() && (#[trigger] baselines[i]).filename == "baseline-B.sqlite"@) by {
        if !exists|i: int|
            0 <= i < baselines.len() && (#[trigger] baselines[i]).filename
                == "baseline-B.sqlite"@ {
            assert(baselines[1].filename == "baseline-B.sqlite"@);
        }
    }
    assert(next_slot(baselines) == first.filename);
    let k = baselines.index_of(first);
    assert(baselines[k] == first);
    assert(by_age(baselines).contains(baselines[0]));
    let j = by_age(baselines).index_of(baselines[0]);
    assert(by_age(baselines)[j] == baselines[0]);
    assert(first.revision <= baselines[0].revision);
}

proof fn lemma_middle_of_three(
    all: Seq<BaselineView>,
    x: BaselineView,
    y: BaselineView,
    z: BaselineView,
)
    requires
        all == seq![x, y, z],
        x.revision <= y.revision <= z.revision,
    ensures
        by_age(all).len() == 3,
        by_age(all)[1].revision >= y.revision,
{
    lemma_ages_finite(all);
    lemma_in_order_lists::<BaselineAge>(ages(all));
    let order = in_order::<BaselineAge>(ages(all));
    let p = BaselineAge { revision: x.revision, index: 0 };
    let q = BaselineAge { revision: y.revision, index: 1 };
    let r = BaselineAge { revision: z.revision, index: 2 };
    let expected = seq![p, q, r];
    assert(lists::<BaselineAge>(expected, ages(all))) by {
        assert forall|k: BaselineAge| #[trigger] expected.contains(k) <==> ages(all).contains(k) by {
            assert(expected[0] == p && expected[1] == q && expected[2] == r);
            if ages(all).contains(k) {
                assert(k == p || k == q || k == r);
            }
        }
    }
    crate::table::lemma_lists_in_order::<BaselineAge>(expected, ages(all));
    assert(order[1] == q);
    assert(by_age(all)[1] == y);
}

/// Once material was reset, as a purge does, only the store that it was reset to can be recovered:
/// no earlier baseline and no segment is left that could bring a purged Node back.
pub proof fn law_reset_recovers_the_live_store(
    generation: u64,
    baseline: BaselineView,
    barrier: Option<u64>,
    note: Option<Seq<char>>,
    found: Seq<Result<BaselineFacts, CoreError>>,
    reads: Seq<Result<RecoverySegment, CoreError>>,
)
    requires
        found.len() == 1,
    ensures
        match best_result(reset_manifest(generation, baseline, barrier, note), found, reads) {
            Ok(plan) => plan.baseline == baseline && plan.segments.len() == 0
                && plan.recovered_revision == baseline.revision,
            Err(_) => !(found[0] is Ok && found[0]->Ok_0.integrity_ok && found[0]->Ok_0.revision
                == baseline.revision),
        },
{
    let m = reset_manifest(generation, baseline, barrier, note);
    let place = BaselinePlace { revision: baseline.revision, index: 0 };
    let there = Set::new(
        |p: BaselinePlace|
            p.index < m.baselines.len() && p.revision == m.baselines[p.index as int].revision,
    );
    let order = seq![place];
    assert forall|p: BaselinePlace| #[trigger] order.contains(p) <==> there.contains(p) by {
        if there.contains(p) {
            assert(p == place);
            assert(order[0] == p);
        }
    }
    lemma_lists_in_order::<BaselinePlace>(order, there);
    assert(baseline_order(m.baselines) == order);
    let none = Seq::<SegmentPlace>::empty();
    let segments = Set::new(
        |p: SegmentPlace|
            p.index < m.segments.len() && p.from_revision
                == m.segments[p.index as int].from_revision && p.through_revision
                == m.segments[p.index as int].through_revision,
    );
    lemma_lists_in_order::<SegmentPlace>(none, segments);
    assert(segment_order(m.segments) == none);
    reveal_with_fuel(try_baselines, 2);
}

} // verus!
