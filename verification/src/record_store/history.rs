//! What the journal can give back: the differences between two revisions, exactly.
use vstd::prelude::*;
use crate::api::RelationshipView;
use crate::error::ErrorView;
use crate::id::NodeId;
use crate::record_store::keys::key_ok;
use crate::record_store::laws::{
    commits, consistent, covers, facts_ok, node_ok, property_definition_ok,
    relationship_definition_ok, relationship_ok,
};
use crate::record_store::model::{ChangeKind, ChangeView, RecordModel};
use crate::record_store::projection::{
    changes_after, contiguous, delta_since, issued_in, nodes_in, patch_of, property_definitions_in,
    pruned, readable, relationship_definitions_in, relationships_in, DeltaView,
    RECORD_CHANGE_RETENTION_REVISIONS,
};
use crate::record_store::recovery::{
    brings_refused_value, in_place, issued_by, kept_row, kept_slots, key_taken, node_row_ok,
    patched, references_ok, refused_value, rows_ok,
};
use crate::table::{lookup, overlay};
use crate::text::char_is_control;
use crate::value::kept_value;

verus! {

/// A store without its journal.
pub open spec fn without_journal(m: RecordModel) -> RecordModel {
    RecordModel { journal: Seq::empty(), ..m }
}

/// Whether one store comes of another by one commit.
pub open spec fn leads(a: RecordModel, b: RecordModel) -> bool {
    exists|new: Seq<ChangeView>| commits(a, b, new)
}

/// Whether these are the contents of a consistent store, commit by commit.
pub open spec fn is_history(h: Seq<RecordModel>) -> bool {
    &&& h.len() > 0
    &&& forall|i: int| 0 <= i < h.len() ==> consistent(#[trigger] h[i])
    &&& forall|i: int, j: int|
        0 <= i && j == i + 1 && j < h.len() ==> leads(#[trigger] h[i], #[trigger] h[j])
}

/// The rows that changed, taken from the later content, turn the earlier rows into the later ones.
proof fn lemma_overlay<K, V>(was: Map<K, V>, now: Map<K, V>, keys: Set<K>)
    requires
        forall|k: K| !keys.contains(k) ==> #[trigger] lookup(now, k) == lookup(was, k),
    ensures
        overlay(was, crate::record_store::projection::slots(keys, now)) == now,
{
    let changed = crate::record_store::projection::slots(keys, now);
    let result = overlay(was, changed);
    assert forall|k: K| result.dom().contains(k) <==> now.dom().contains(k) by {
        if !keys.contains(k) {
            assert(lookup(now, k) == lookup(was, k));
        }
    }
    assert forall|k: K| result.dom().contains(k) implies result[k] == now[k] by {
        if !keys.contains(k) {
            assert(lookup(now, k) == lookup(was, k));
        }
    }
    assert(result =~= now);
}

/// The tables take what can be a key.
proof fn lemma_key_taken(key: Seq<char>)
    requires
        key_ok(key),
    ensures
        key_taken(key),
{
    assert(!char_is_control(key[0]));
}

/// The patch of what changed between two contents of a consistent store turns the earlier one into
/// the later one, and is accepted.
pub proof fn law_patch_reproduces(a: RecordModel, b: RecordModel, changes: Seq<ChangeView>)
    requires
        covers(a, b, changes),
        facts_ok(b),
        a.revision < b.revision,
    ensures
        ({
            let p = patch_of(b, a.revision, changes);
            &&& in_place(a, p)
            &&& !exists|fault: ErrorView| brings_refused_value(p, fault)
            &&& rows_ok(p)
            &&& patched(a, p) == without_journal(b)
            &&& references_ok(patched(a, p))
        }),
{
    let p = patch_of(b, a.revision, changes);
    lemma_overlay(a.nodes, b.nodes, nodes_in(changes));
    lemma_overlay(a.relationships, b.relationships, relationships_in(changes));
    lemma_overlay(
        a.property_definitions,
        b.property_definitions,
        property_definitions_in(changes),
    );
    lemma_overlay(
        a.relationship_definitions,
        b.relationship_definitions,
        relationship_definitions_in(changes),
    );
    assert(kept_slots(p.relationship_definitions) =~= p.relationship_definitions) by {
        assert forall|k: Seq<char>| p.relationship_definitions.dom().contains(k) implies kept_slots(
            p.relationship_definitions,
        )[k] == p.relationship_definitions[k] by {
            if b.relationship_definitions.dom().contains(k) {
                assert(relationship_definition_ok(b, k));
                assert(kept_row(b.relationship_definitions[k])
                    == b.relationship_definitions[k]);
            }
        }
    }
    assert(a.issued.union(issued_by(p)) =~= b.issued) by {
        assert forall|id: NodeId| a.issued.union(issued_by(p)).contains(id)
            <==> b.issued.contains(id) by {
            if p.nodes.dom().contains(id) && p.nodes[id] is Some {
                assert(b.nodes.dom().contains(id));
                assert(node_ok(b, id));
            }
        }
    }
    assert(patched(a, p) =~= without_journal(b));
    assert(references_ok(patched(a, p))) by {
        let m = patched(a, p);
        assert forall|r: RelationshipView| #[trigger]
            m.relationships.dom().contains(r) implies m.issued.contains(r.source)
            && m.issued.contains(r.target) by {
            assert(relationship_ok(b, r));
        }
        assert forall|k: Seq<char>| #[trigger]
            m.property_definitions.dom().contains(k) implies match m.property_definitions[k].definition.replacement_key {
            Some(other) => m.property_definitions.dom().contains(other),
            None => true,
        } by {
            assert(property_definition_ok(b, k));
        }
        assert forall|k: Seq<char>| #[trigger]
            m.relationship_definitions.dom().contains(k) implies match m.relationship_definitions[k].definition.replacement_key {
            Some(other) => m.relationship_definitions.dom().contains(other),
            None => true,
        } by {
            assert(relationship_definition_ok(b, k));
        }
    }
    assert forall|fault: ErrorView| !brings_refused_value(p, fault) by {
        if brings_refused_value(p, fault) {
            let (id, key) = choose|id: NodeId, key: Seq<char>| #[trigger]
                refused_value(p, id, key) == Some(fault);
            assert(b.nodes.dom().contains(id));
            assert(node_ok(b, id));
            assert(b.nodes[id].properties.dom().contains(key));
        }
    }
    assert(rows_ok(p)) by {
        assert forall|id: NodeId| #[trigger]
            p.nodes.dom().contains(id) && p.nodes[id] is Some implies node_row_ok(
            p.nodes[id]->0,
        ) by {
            assert(b.nodes.dom().contains(id));
            assert(node_ok(b, id));
            assert forall|k: Seq<char>| #[trigger]
                b.nodes[id].properties.dom().contains(k) implies key_taken(k) && 0
                < b.nodes[id].properties[k].modified_revision <= i64::MAX && kept_value(
                b.nodes[id].properties[k].value,
            ) == b.nodes[id].properties[k].value by {
                lemma_key_taken(k);
            }
        }
        assert forall|r: RelationshipView| #[trigger]
            p.relationships.dom().contains(r) && p.relationships[r] is Some implies key_taken(r.key)
            && 0 < p.relationships[r]->0.created_revision
            <= p.relationships[r]->0.modified_revision <= i64::MAX by {
            assert(relationship_ok(b, r));
            lemma_key_taken(r.key);
        }
        assert forall|k: Seq<char>| #[trigger]
            p.property_definitions.dom().contains(k)
                && p.property_definitions[k] is Some implies key_taken(k) && 0
            < p.property_definitions[k]->0.definition.version <= i64::MAX && 0
            < p.property_definitions[k]->0.modified_revision <= i64::MAX by {
            assert(property_definition_ok(b, k));
            lemma_key_taken(k);
        }
        assert forall|k: Seq<char>| #[trigger]
            p.relationship_definitions.dom().contains(k)
                && p.relationship_definitions[k] is Some implies key_taken(k) && 0
            < p.relationship_definitions[k]->0.definition.version <= i64::MAX && 0
            < p.relationship_definitions[k]->0.modified_revision <= i64::MAX by {
            assert(relationship_definition_ok(b, k));
            lemma_key_taken(k);
        }
    }
}

pub(crate) proof fn lemma_filter_all(s: Seq<ChangeView>, keep: spec_fn(ChangeView) -> bool)
    requires
        forall|i: int| 0 <= i < s.len() ==> keep(#[trigger] s[i]),
    ensures
        s.filter(keep) == s,
    decreases s.len(),
{
    reveal(Seq::filter);
    if s.len() > 0 {
        lemma_filter_all(s.drop_last(), keep);
        assert(s.drop_last().push(s.last()) =~= s);
    }
}

pub(crate) proof fn lemma_filter_twice(
    s: Seq<ChangeView>,
    keep: spec_fn(ChangeView) -> bool,
    recent: spec_fn(ChangeView) -> bool,
)
    requires
        forall|c: ChangeView| #[trigger] recent(c) ==> keep(c),
    ensures
        s.filter(keep).filter(recent) == s.filter(recent),
    decreases s.len(),
{
    reveal(Seq::filter);
    if s.len() > 0 {
        let rest = s.drop_last();
        lemma_filter_twice(rest, keep, recent);
        if keep(s.last()) {
            rest.filter(keep).lemma_filter_push(s.last(), recent);
        }
    }
}

/// The journal of the last content of a history is that of the first, and then all the changes
/// between the two, whose revisions run without a gap.
proof fn lemma_history(h: Seq<RecordModel>) -> (all: Seq<ChangeView>)
    requires
        is_history(h),
    ensures
        h.last().journal == h[0].journal + all,
        covers(h[0], h.last(), all),
        h.last().revision == h[0].revision + h.len() - 1,
        forall|i: int| 0 <= i < all.len() ==> readable(#[trigger] all[i]),
        forall|i: int| 0 <= i < all.len() ==> (#[trigger] all[i]).revision > h[0].revision,
        h.len() == 1 ==> all.len() == 0,
        h.len() > 1 ==> contiguous(all, h[0].revision, h.last().revision),
    decreases h.len(),
{
    if h.len() == 1 {
        let none = Seq::<ChangeView>::empty();
        assert(h[0].journal + none =~= h[0].journal);
        assert forall|id: NodeId| !issued_in(none).contains(id) by {}
        none
    } else {
        let shorter = h.drop_last();
        assert forall|i: int| 0 <= i < shorter.len() implies consistent(#[trigger] shorter[i]) by {
            assert(shorter[i] == h[i]);
        }
        assert forall|i: int, j: int|
            0 <= i && j == i + 1 && j < shorter.len() implies leads(
            #[trigger] shorter[i],
            #[trigger] shorter[j],
        ) by {
            assert(leads(h[i], h[j]));
        }
        let before = lemma_history(shorter);
        let k = shorter.last();
        let b = h.last();
        assert(leads(h[h.len() - 2], h[h.len() - 1]));
        let new = choose|new: Seq<ChangeView>| commits(k, b, new);
        assert(commits(k, b, new));
        let all = before + new;
        crate::record_store::laws::lemma_covers_chain(h[0], k, b, before, new);
        assert(b.journal =~= h[0].journal + all);
        assert forall|i: int| 0 <= i < all.len() implies readable(#[trigger] all[i]) && all[i].revision
            > h[0].revision by {
            if i < before.len() {
                assert(all[i] == before[i]);
            } else {
                assert(all[i] == new[i - before.len()]);
            }
        }
        assert(contiguous(all, h[0].revision, b.revision)) by {
            assert(all.last() == new.last());
            assert(new[new.len() - 1].revision == b.revision);
            if before.len() == 0 {
                assert(all[0] == new[0]);
            } else {
                assert(all[0] == before[0]);
            }
            assert forall|i: int, j: int|
                0 <= i && j == i + 1 && j < all.len() implies (#[trigger] all[i]).revision <= (
            #[trigger] all[j]).revision <= all[i].revision + 1 by {
                let n = before.len();
                if j < n {
                    assert(all[i] == before[i] && all[j] == before[j]);
                } else if i < n {
                    assert(all[i] == before.last() && all[j] == new[0]);
                } else {
                    assert(all[i] == new[i - n] && all[j] == new[j - n]);
                }
            }
        }
        all
    }
}

/// At the end of a history the journal tells exactly the changes since its beginning.
pub(crate) proof fn lemma_delta_of_history(h: Seq<RecordModel>) -> (all: Seq<ChangeView>)
    requires
        is_history(h),
        h.len() > 1,
    ensures
        covers(h[0], h.last(), all),
        h[0].revision < h.last().revision,
        delta_since(h.last(), h[0].revision) == DeltaView::Available(
            patch_of(h.last(), h[0].revision, all),
        ),
{
    let a = h[0];
    let b = h.last();
    let all = lemma_history(h);
    let recent = |c: ChangeView| c.revision > a.revision;
    assert(consistent(h[0]) && consistent(h[h.len() - 1]));
    a.journal.lemma_all_neg_filter_empty(recent);
    lemma_filter_all(all, recent);
    Seq::filter_distributes_over_add(a.journal, all, recent);
    assert(Seq::<ChangeView>::empty() + all =~= all);
    assert(changes_after(b.journal, a.revision) == all);
    all
}

/// As long as the journal has not been pruned, it tells at the end of any history what changed
/// since its beginning, and the patch it gives turns the content at the beginning into the content
/// at the end. An earlier copy of the store is thus brought up to date without a loss.
pub proof fn law_journal_replays(h: Seq<RecordModel>)
    requires
        is_history(h),
        h.len() > 1,
    ensures
        ({
            let a = h[0];
            let b = h.last();
            let d = delta_since(b, a.revision);
            &&& d is Available
            &&& in_place(a, d->Available_0)
            &&& !exists|fault: ErrorView| brings_refused_value(d->Available_0, fault)
            &&& rows_ok(d->Available_0)
            &&& references_ok(patched(a, d->Available_0))
            &&& patched(a, d->Available_0) == without_journal(b)
        }),
{
    let all = lemma_delta_of_history(h);
    assert(consistent(h[h.len() - 1]));
    law_patch_reproduces(h[0], h.last(), all);
}

/// Pruning loses nothing of the latest revisions: what the journal tells since any of them stays
/// the same.
pub proof fn law_prune_keeps_recent(m: RecordModel, checkpoint: u64)
    requires
        checkpoint + RECORD_CHANGE_RETENTION_REVISIONS >= m.revision,
    ensures
        delta_since(pruned(m), checkpoint) == delta_since(m, checkpoint),
        without_journal(pruned(m)) == without_journal(m),
{
    if m.revision > RECORD_CHANGE_RETENTION_REVISIONS {
        let first_to_keep = (m.revision - RECORD_CHANGE_RETENTION_REVISIONS + 1) as u64;
        let keep = |c: ChangeView| c.revision >= first_to_keep;
        let recent = |c: ChangeView| c.revision > checkpoint;
        assert forall|c: ChangeView| #[trigger] recent(c) implies keep(c) by {}
        lemma_filter_twice(m.journal, keep, recent);
        assert(changes_after(pruned(m).journal, checkpoint) == changes_after(
            m.journal,
            checkpoint,
        ));
    }
}

/// A store whose journal is kept from a revision on.
pub open spec fn kept_from(m: RecordModel, from: u64) -> RecordModel {
    RecordModel { journal: m.journal.filter(|c: ChangeView| c.revision >= from), ..m }
}

/// A journal that is kept from any revision on tells either the same as the whole journal or
/// nothing: where it still gives what changed since a checkpoint, it gives what the whole one does.
pub proof fn law_kept_journal_tells_the_same(m: RecordModel, from: u64, checkpoint: u64)
    requires
        delta_since(kept_from(m, from), checkpoint) is Available,
    ensures
        delta_since(kept_from(m, from), checkpoint) == delta_since(m, checkpoint),
{
    let keep = |c: ChangeView| c.revision >= from;
    let recent = |c: ChangeView| c.revision > checkpoint;
    let kept = m.journal.filter(keep);
    if from > checkpoint + 1 {
        lemma_filter_holds(kept, recent);
        lemma_filter_comes_of(kept, recent);
        lemma_filter_holds(m.journal, keep);
        let first = changes_after(kept, checkpoint)[0];
        assert(kept.contains(first));
        let k = kept.index_of(first);
        assert(keep(kept[k]));
    } else {
        assert forall|c: ChangeView| #[trigger] recent(c) implies keep(c) by {}
        lemma_filter_twice(m.journal, keep, recent);
    }
}

pub(crate) proof fn lemma_filter_comes_of<A>(s: Seq<A>, keep: spec_fn(A) -> bool)
    ensures
        forall|i: int| 0 <= i < s.filter(keep).len() ==> s.contains(#[trigger] s.filter(keep)[i]),
    decreases s.len(),
{
    reveal(Seq::filter);
    if s.len() > 0 {
        let rest = s.drop_last();
        lemma_filter_comes_of(rest, keep);
        assert forall|i: int| 0 <= i < s.filter(keep).len() implies s.contains(
            #[trigger] s.filter(keep)[i],
        ) by {
            let kept = rest.filter(keep);
            if i < kept.len() {
                assert(rest.contains(kept[i]));
                let k = rest.index_of(kept[i]);
                assert(s[k] == kept[i]);
            } else {
                assert(s[s.len() - 1] == s.filter(keep)[i]);
            }
        }
    }
}

/// The journal is bounded: once pruned it holds changes of the latest revisions only.
pub proof fn law_journal_is_bounded(m: RecordModel)
    ensures
        m.revision > RECORD_CHANGE_RETENTION_REVISIONS ==> forall|i: int|
            0 <= i < pruned(m).journal.len() ==> (#[trigger] pruned(m).journal[i]).revision
                + RECORD_CHANGE_RETENTION_REVISIONS > m.revision,
{
    if m.revision > RECORD_CHANGE_RETENTION_REVISIONS {
        let first_to_keep = (m.revision - RECORD_CHANGE_RETENTION_REVISIONS + 1) as u64;
        let keep = |c: ChangeView| c.revision >= first_to_keep;
        lemma_filter_holds(m.journal, keep);
    }
}

pub(crate) proof fn lemma_filter_holds<A>(s: Seq<A>, keep: spec_fn(A) -> bool)
    ensures
        forall|i: int| 0 <= i < s.filter(keep).len() ==> keep(#[trigger] s.filter(keep)[i]),
    decreases s.len(),
{
    reveal(Seq::filter);
    if s.len() > 0 {
        lemma_filter_holds(s.drop_last(), keep);
    }
}

/// Pruning keeps of the journal exactly the changes of the latest 1024 revisions, in their order, and
/// leaves every fact as it was.
pub proof fn law_prune_keeps_the_latest_revisions(m: RecordModel, c: ChangeView)
    ensures
        pruned(m).journal.contains(c) <==> m.journal.contains(c) && (m.revision <= 1_024
            || c.revision + 1_024 > m.revision),
        pruned(m).revision == m.revision,
        pruned(m).issued == m.issued,
        pruned(m).nodes == m.nodes,
        pruned(m).relationships == m.relationships,
        pruned(m).property_definitions == m.property_definitions,
        pruned(m).relationship_definitions == m.relationship_definitions,
{
    if m.revision > RECORD_CHANGE_RETENTION_REVISIONS {
        let first_to_keep = (m.revision - RECORD_CHANGE_RETENTION_REVISIONS + 1) as u64;
        let keep = |c: ChangeView| c.revision >= first_to_keep;
        let kept = m.journal.filter(keep);
        assert(pruned(m).journal == kept);
        lemma_filter_holds(m.journal, keep);
        lemma_filter_comes_of(m.journal, keep);
        if kept.contains(c) {
            let i = kept.index_of(c);
            assert(keep(kept[i]) && m.journal.contains(kept[i]));
        }
        if m.journal.contains(c) && keep(c) {
            let i = m.journal.index_of(c);
            lemma_filter_takes(m.journal, keep, i);
        }
    }
}

pub(crate) proof fn lemma_filter_takes<A>(s: Seq<A>, keep: spec_fn(A) -> bool, i: int)
    requires
        0 <= i < s.len(),
        keep(s[i]),
    ensures
        s.filter(keep).contains(s[i]),
    decreases s.len(),
{
    reveal(Seq::filter);
    let rest = s.drop_last();
    let all = s.filter(keep);
    if i < rest.len() {
        lemma_filter_takes(rest, keep, i);
        let k = rest.filter(keep).index_of(s[i]);
        assert(rest[i] == s[i]);
        assert(all[k] == s[i]);
    } else {
        assert(all[all.len() - 1] == s[i]);
    }
}

/// What the journal tells since a revision: nothing where that is the current one; and where it still
/// has every revision since, what became of exactly the Nodes, the Relationships and the definitions
/// that its changes since then name, as they stand now.
pub proof fn law_journal_tells_what_it_names(m: RecordModel, checkpoint: u64)
    ensures
        ({
            let d = delta_since(m, checkpoint);
            &&& d is Current <==> checkpoint == m.revision
            &&& checkpoint > m.revision ==> d is Unavailable
            &&& match d {
                DeltaView::Available(p) => {
                    &&& p.from_revision == checkpoint
                    &&& p.target_revision == m.revision
                    &&& forall|id: NodeId| #[trigger]
                        p.nodes.dom().contains(id) <==> exists|i: int|
                            0 <= i < m.journal.len() && (#[trigger] m.journal[i]).revision
                                > checkpoint && names_node(m.journal[i], id)
                    &&& forall|id: NodeId| #[trigger]
                        p.nodes.dom().contains(id) ==> (p.nodes[id] is Some
                            <==> m.nodes.dom().contains(id)) && (p.nodes[id] is Some
                            ==> p.nodes[id]->0 == m.nodes[id])
                    &&& forall|r: RelationshipView| #[trigger]
                        p.relationships.dom().contains(r) ==> (p.relationships[r] is Some
                            <==> m.relationships.dom().contains(r)) && (p.relationships[r] is Some
                            ==> p.relationships[r]->0 == m.relationships[r])
                    &&& forall|i: int|
                        0 <= i < m.journal.len() && (#[trigger] m.journal[i]).revision > checkpoint
                            && (m.journal[i].kind is RelationshipAdded
                            || m.journal[i].kind is RelationshipRemoved)
                            ==> p.relationships.dom().contains(
                            RelationshipView {
                                source: m.journal[i].node_id->0,
                                key: m.journal[i].definition_key->0,
                                target: m.journal[i].target->0,
                            },
                        )
                },
                _ => true,
            }
        }),
{
    let recent = |c: ChangeView| c.revision > checkpoint;
    let changes = changes_after(m.journal, checkpoint);
    lemma_filter_holds(m.journal, recent);
    lemma_filter_comes_of(m.journal, recent);
    match delta_since(m, checkpoint) {
        DeltaView::Available(p) => {
            assert forall|id: NodeId| #[trigger] p.nodes.dom().contains(id) <==> exists|i: int|
                0 <= i < m.journal.len() && (#[trigger] m.journal[i]).revision > checkpoint
                    && names_node(m.journal[i], id) by {
                if p.nodes.dom().contains(id) {
                    let k = choose|k: int|
                        0 <= k < changes.len()
                            && crate::record_store::projection::concerns_node(
                            #[trigger] changes[k],
                            id,
                        );
                    assert(m.journal.contains(changes[k]) && recent(changes[k]));
                    let i = m.journal.index_of(changes[k]);
                    assert(names_node(m.journal[i], id));
                }
                if exists|i: int|
                    0 <= i < m.journal.len() && (#[trigger] m.journal[i]).revision > checkpoint
                        && names_node(m.journal[i], id) {
                    let i = choose|i: int|
                        0 <= i < m.journal.len() && (#[trigger] m.journal[i]).revision > checkpoint
                            && names_node(m.journal[i], id);
                    lemma_filter_takes(m.journal, recent, i);
                    let k = changes.index_of(m.journal[i]);
                    assert(crate::record_store::projection::concerns_node(changes[k], id));
                }
            }
            assert forall|i: int|
                0 <= i < m.journal.len() && (#[trigger] m.journal[i]).revision > checkpoint && (
                m.journal[i].kind is RelationshipAdded
                    || m.journal[i].kind is RelationshipRemoved) implies p.relationships.dom().contains(
            RelationshipView {
                source: m.journal[i].node_id->0,
                key: m.journal[i].definition_key->0,
                target: m.journal[i].target->0,
            }) by {
                lemma_filter_takes(m.journal, recent, i);
                let k = changes.index_of(m.journal[i]);
                assert(readable(changes[k]));
                assert(crate::record_store::projection::concerns_relationship(
                    changes[k],
                    RelationshipView {
                        source: m.journal[i].node_id->0,
                        key: m.journal[i].definition_key->0,
                        target: m.journal[i].target->0,
                    },
                ));
            }
        },
        _ => {},
    }
}

/// Whether a change names a Node: as the one it changed, or as an end of the Relationship it changed.
pub open spec fn names_node(c: ChangeView, id: NodeId) -> bool {
    match c.kind {
        ChangeKind::NodeCreated | ChangeKind::NodeTombstoned | ChangeKind::NodeRestored
        | ChangeKind::NodePurged | ChangeKind::PropertySet | ChangeKind::PropertyRemoved =>
            c.node_id == Some(id),
        ChangeKind::RelationshipAdded | ChangeKind::RelationshipRemoved => c.node_id == Some(id)
            || c.target == Some(id),
        _ => false,
    }
}

} // verus!
