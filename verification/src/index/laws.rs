//! What holds of everything that is read from the Index.
use vstd::prelude::*;
use crate::api::{clamped_limit, RelationshipView};
use crate::cursor::cursor_token;
use crate::error::ErrorView;
use crate::id::NodeId;
use crate::index::content::without_content;
use crate::index::graph::{active_ids, canonical_edges, derived_edges, loose_ids, orphans};
use crate::index::model::{DerivedKeyView, IndexModel, IndexedNodeRow};
use crate::index::nodes::{
    answers, nodes_collection, place_position, places, traversal_read, NodeCall, NodePlace,
};
use crate::index::projection::rebuilt_index;
use crate::paging::{
    law_pages_join, law_traversal_is_complete, law_traversal_loses_nothing,
    law_traversal_repeats_nothing, lemma_in_order_lists, lemma_page, place_after, Traversal,
};
use crate::record_store::laws::consistent;
use crate::record_store::model::{NodeRow, RecordModel};
use crate::record_store::runs::{is_run, law_run_keeps_the_store, Operation};
use crate::record_store::schema::ends_at_revision;
use crate::table::{ascending, in_order, lists, lookup, projected_rows, TableKey};

verus! {

/// An Index that is lost is the same once it is built anew, but for the content that was given to
/// it: whatever it answered from Record truth it answers again.
pub proof fn law_rebuild_reproduces_the_index(x: IndexModel, m: RecordModel)
    requires
        x.shows(m),
    ensures
        rebuilt_index(m) == without_content(x),
{
    assert(rebuilt_index(m) =~= without_content(x));
}

/// Whether the Nodes of an Index can be listed: there are finitely many, their IDs are valid, and
/// each was changed at some revision.
pub open spec fn listable(x: IndexModel) -> bool {
    &&& x.nodes.dom().finite()
    &&& forall|id: NodeId| #[trigger]
        x.nodes.dom().contains(id) ==> id.valid() && 0 < x.nodes[id].modified_revision
}

/// An Index that shows a later content of a store than another one, under a watermark that the
/// earlier one had reached, shows exactly those of its Nodes that did not change since, each at the
/// same place.
pub proof fn law_watermark_excludes_later_changes(
    x: IndexModel,
    y: IndexModel,
    h: Seq<RecordModel>,
    ops: Seq<Operation>,
    from: int,
    to: int,
    watermark: u64,
)
    requires
        is_run(h, ops),
        consistent(h[0]),
        ends_at_revision(h[0]),
        0 <= from <= to < h.len(),
        x.shows(h[from]),
        y.shows(h[to]),
        watermark <= h[from].revision,
    ensures
        forall|p: NodePlace| #[trigger]
            places(y, watermark).contains(p) <==> places(x, watermark).contains(p) && lookup(
                h[to].nodes,
                p.id,
            ) == lookup(h[from].nodes, p.id),
{
    law_run_keeps_the_store(h, ops, from, to);
    let a = h[from];
    let b = h[to];
    assert forall|p: NodePlace| #[trigger]
        places(y, watermark).contains(p) <==> places(x, watermark).contains(p) && lookup(
            b.nodes,
            p.id,
        ) == lookup(a.nodes, p.id) by {
        let shown = projected_rows::<NodeId, NodeRow, IndexedNodeRow>(a.nodes);
        let later = projected_rows::<NodeId, NodeRow, IndexedNodeRow>(b.nodes);
        assert(shown.dom().contains(p.id) <==> a.nodes.dom().contains(p.id));
        assert(later.dom().contains(p.id) <==> b.nodes.dom().contains(p.id));
        if places(y, watermark).contains(p) && lookup(b.nodes, p.id) != lookup(a.nodes, p.id) {
            assert(b.nodes[p.id].modified_revision > a.revision);
        }
    }
}

/// Whether these calls are one traversal: the first without a cursor, each other one with the
/// cursor that the one before it was answered, and all of them answered as they should.
pub open spec fn is_traversal(calls: Seq<NodeCall>) -> bool {
    &&& calls.len() > 0
    &&& calls[0].cursor is None
    &&& forall|i: int| 0 <= i < calls.len() ==> answers(#[trigger] calls[i])
    &&& forall|i: int, j: int|
        0 <= i && j == i + 1 && j < calls.len() ==> (#[trigger] calls[i]).next is Some && (
        #[trigger] calls[j]).cursor == calls[i].next
}

/// The Nodes that the first `n` calls showed, one after the other.
pub open spec fn shown_by(calls: Seq<NodeCall>, n: nat) -> Seq<NodePlace>
    decreases n,
{
    if n == 0 {
        Seq::empty()
    } else {
        shown_by(calls, (n - 1) as nat) + calls[n - 1].shown
    }
}

/// The listings and limits of calls under a watermark.
pub open spec fn traversal_of(calls: Seq<NodeCall>, watermark: u64) -> Traversal<NodePlace> {
    Traversal {
        listings: Seq::new(
            calls.len(),
            |i: int| in_order::<NodePlace>(places(calls[i].index, watermark)),
        ),
        limits: Seq::new(calls.len(), |i: int| clamped_limit(calls[i].limit)),
    }
}

proof fn lemma_places_listed(x: IndexModel, watermark: u64)
    requires
        listable(x),
    ensures
        lists::<NodePlace>(
            in_order::<NodePlace>(places(x, watermark)),
            places(x, watermark),
        ),
{
    let place = |id: NodeId| NodePlace { modified_revision: x.nodes[id].modified_revision, id };
    let all = x.nodes.dom().map(place);
    x.nodes.dom().lemma_map_finite(place);
    assert forall|p: NodePlace| places(x, watermark).contains(p) implies all.contains(p) by {
        assert(place(p.id) == p);
        assert(x.nodes.dom().contains(p.id));
    }
    vstd::set_lib::lemma_set_subset_finite(all, places(x, watermark));
    lemma_in_order_lists::<NodePlace>(places(x, watermark));
}

proof fn lemma_calls_are_pages(calls: Seq<NodeCall>, watermark: u64, n: nat)
    requires
        is_traversal(calls),
        n < calls.len(),
        watermark == calls[0].index.applied_revision,
        forall|i: int|
            0 <= i < calls.len() ==> listable((#[trigger] calls[i]).index) && watermark
                <= calls[i].index.applied_revision,
    ensures
        ({
            let t = traversal_of(calls, watermark);
            &&& traversal_read(calls[n as int].cursor, calls[n as int].index.applied_revision)
                == Ok::<(u64, Option<NodePlace>), ErrorView>(
                (watermark, t.position::<NodePlace>(n)),
            )
            &&& calls[n as int].shown == t.page::<NodePlace>(n)
            &&& t.goes_on::<NodePlace>(n) <==> calls[n as int].next is Some
        }),
    decreases n,
{
    let t = traversal_of(calls, watermark);
    let call = calls[n as int];
    assert(answers(call));
    if n > 0 {
        let i = (n - 1) as nat;
        lemma_calls_are_pages(calls, watermark, i);
        let former = calls[i as int];
        assert(answers(former));
        assert(former.next is Some && call.cursor == former.next);
        lemma_places_listed(former.index, watermark);
        let keys = t.listings[i as int];
        let begin = place_after::<NodePlace>(keys, t.position::<NodePlace>(i));
        law_pages_join::<NodePlace>(
            keys,
            t.position::<NodePlace>(i),
            clamped_limit(former.limit),
        );
        let last = former.shown.last();
        assert(last == keys[begin + clamped_limit(former.limit) - 1]);
        assert(keys.contains(last));
        assert(places(former.index, watermark).contains(last));
        assert(former.index.nodes.dom().contains(last.id));
        assert(call.cursor == Some(
            cursor_token(nodes_collection(), watermark, place_position(last)),
        ));
    }
}

proof fn lemma_traversal_runs(calls: Seq<NodeCall>, watermark: u64)
    requires
        is_traversal(calls),
        watermark == calls[0].index.applied_revision,
        forall|i: int|
            0 <= i < calls.len() ==> listable((#[trigger] calls[i]).index) && watermark
                <= calls[i].index.applied_revision,
    ensures
        traversal_of(calls, watermark).runs::<NodePlace>(calls.len()),
        calls.last().next is None <==> !traversal_of(calls, watermark).goes_on::<NodePlace>(
            (calls.len() - 1) as nat,
        ),
        forall|i: int|
            0 <= i < calls.len() ==> (#[trigger] calls[i]).shown == traversal_of(
                calls,
                watermark,
            ).page::<NodePlace>(i as nat),
        shown_by(calls, calls.len()) == traversal_of(calls, watermark).joined::<NodePlace>(
            calls.len(),
        ),
{
    let t = traversal_of(calls, watermark);
    assert forall|i: int| 0 <= i < calls.len() implies ascending::<NodePlace>(
        #[trigger] t.listings[i],
    ) by {
        assert(listable(calls[i].index));
        lemma_places_listed(calls[i].index, watermark);
    }
    assert forall|i: nat| i + 1 < calls.len() implies #[trigger] t.goes_on::<NodePlace>(i) by {
        lemma_calls_are_pages(calls, watermark, i);
        let next = calls[(i + 1) as int];
        assert(calls[i as int].next is Some);
    }
    lemma_calls_are_pages(calls, watermark, (calls.len() - 1) as nat);
    lemma_shown_is_joined(calls, watermark, calls.len());
    assert forall|i: int| 0 <= i < calls.len() implies (#[trigger] calls[i]).shown == t.page::<
        NodePlace,
    >(i as nat) by {
        lemma_calls_are_pages(calls, watermark, i as nat);
    }
}

proof fn lemma_shown_is_joined(calls: Seq<NodeCall>, watermark: u64, n: nat)
    requires
        is_traversal(calls),
        n <= calls.len(),
        watermark == calls[0].index.applied_revision,
        forall|i: int|
            0 <= i < calls.len() ==> listable((#[trigger] calls[i]).index) && watermark
                <= calls[i].index.applied_revision,
    ensures
        shown_by(calls, n) == traversal_of(calls, watermark).joined::<NodePlace>(n),
    decreases n,
{
    if n > 0 {
        lemma_shown_is_joined(calls, watermark, (n - 1) as nat);
        lemma_calls_are_pages(calls, watermark, (n - 1) as nat);
    }
}

/// A traversal of the Nodes of one Index to its end, with any limits, shows all of them, each once,
/// latest changes first and then by ID: what the whole listing shows. No page is longer than its
/// limit, and a cursor is given exactly where Nodes are left.
pub proof fn law_node_traversal_is_complete(x: IndexModel, calls: Seq<NodeCall>)
    requires
        is_traversal(calls),
        calls.last().next is None,
        listable(x),
        forall|i: int| 0 <= i < calls.len() ==> (#[trigger] calls[i]).index == x,
        forall|id: NodeId| #[trigger]
            x.nodes.dom().contains(id) ==> x.nodes[id].modified_revision <= x.applied_revision,
    ensures
        shown_by(calls, calls.len()) == in_order::<NodePlace>(places(x, u64::MAX)),
        forall|i: int|
            0 <= i < calls.len() ==> (#[trigger] calls[i]).shown.len() <= clamped_limit(
                calls[i].limit,
            ) <= 1_000,
{
    let w = x.applied_revision;
    assert(calls[0].index == x);
    lemma_traversal_runs(calls, w);
    let t = traversal_of(calls, w);
    assert(places(x, w) =~= places(x, u64::MAX));
    let keys = in_order::<NodePlace>(places(x, w));
    assert forall|i: int| 0 <= i < calls.len() implies #[trigger] t.listings[i] == keys by {
        assert(calls[i].index == x);
    }
    law_traversal_is_complete::<NodePlace>(keys, t, calls.len());
    assert forall|i: int| 0 <= i < calls.len() implies (#[trigger] calls[i]).shown.len()
        <= clamped_limit(calls[i].limit) <= 1_000 by {
        assert(calls[i].shown == t.page::<NodePlace>(i as nat));
        assert(t.limits[i] == clamped_limit(calls[i].limit));
    }
}

/// A traversal of the Nodes while the store is written to and the Index catches up between the
/// calls, in any way that operations allow. No Node is shown twice. Every Node that is shown was
/// there at the revision the traversal began at and has not changed since. A traversal to the end
/// shows every Node of that revision that has not changed or gone by the last call.
pub proof fn law_node_traversal_under_writes(
    h: Seq<RecordModel>,
    ops: Seq<Operation>,
    at: Seq<int>,
    calls: Seq<NodeCall>,
)
    requires
        is_run(h, ops),
        consistent(h[0]),
        ends_at_revision(h[0]),
        is_traversal(calls),
        at.len() == calls.len(),
        forall|i: int| 0 <= i < at.len() ==> 0 <= #[trigger] at[i] < h.len(),
        forall|i: int, j: int| 0 <= i <= j < at.len() ==> #[trigger] at[i] <= #[trigger] at[j],
        forall|i: int|
            0 <= i < calls.len() ==> listable((#[trigger] calls[i]).index) && calls[i].index.shows(
                h[at[i]],
            ),
    ensures
        ({
            let begun = h[at[0]];
            let all = shown_by(calls, calls.len());
            &&& forall|i: int, j: int|
                0 <= i < j < all.len() ==> (#[trigger] all[i]).id != (#[trigger] all[j]).id
            &&& forall|i: int|
                0 <= i < all.len() ==> places(calls[0].index, begun.revision).contains(
                    #[trigger] all[i],
                )
            &&& forall|i: int, j: int|
                0 <= i < calls.len() && 0 <= j < calls[i].shown.len() ==> lookup(
                    h[at[i]].nodes,
                    (#[trigger] calls[i].shown[j]).id,
                ) == lookup(begun.nodes, calls[i].shown[j].id)
            &&& calls.last().next is None ==> forall|p: NodePlace| #[trigger]
                places(calls[0].index, begun.revision).contains(p) && lookup(
                    h[at.last()].nodes,
                    p.id,
                ) == lookup(begun.nodes, p.id) ==> all.contains(p)
        }),
{
    let begun = h[at[0]];
    let x = calls[0].index;
    let w = begun.revision;
    assert(listable(x) && x.shows(begun));
    assert forall|i: int| 0 <= i < calls.len() implies listable((#[trigger] calls[i]).index) && w
        <= calls[i].index.applied_revision by {
        assert(calls[i].index.shows(h[at[i]]));
        assert(at[0] <= at[i]);
        law_run_keeps_the_store(h, ops, at[0], at[i]);
    }
    lemma_traversal_runs(calls, w);
    let t = traversal_of(calls, w);
    let n = calls.len();
    let all = shown_by(calls, n);
    law_traversal_repeats_nothing::<NodePlace>(t, n);
    assert forall|i: int, p: NodePlace|
        0 <= i < n && #[trigger] t.listings[i].contains(p) implies places(x, w).contains(p)
        && lookup(h[at[i]].nodes, p.id) == lookup(begun.nodes, p.id) by {
        assert(listable(calls[i].index) && calls[i].index.shows(h[at[i]]));
        assert(at[0] <= at[i]);
        lemma_places_listed(calls[i].index, w);
        law_watermark_excludes_later_changes(x, calls[i].index, h, ops, at[0], at[i], w);
        assert(places(calls[i].index, w).contains(p));
    }
    assert forall|i: int| 0 <= i < all.len() implies places(x, w).contains(#[trigger] all[i]) by {
        let k = choose|k: int| 0 <= k < n && t.listings[k].contains(all[i]);
        assert(t.listings[k].contains(all[i]));
    }
    assert forall|i: int, j: int| 0 <= i < j < all.len() implies (#[trigger] all[i]).id != (
    #[trigger] all[j]).id by {
        assert(NodePlace::before(all[i], all[j]));
        assert(places(x, w).contains(all[i]) && places(x, w).contains(all[j]));
        if all[i].id == all[j].id {
            NodePlace::before_irreflexive(all[i]);
        }
    }
    assert forall|i: int, j: int| 0 <= i < n && 0 <= j < calls[i].shown.len() implies lookup(
        h[at[i]].nodes,
        (#[trigger] calls[i].shown[j]).id,
    ) == lookup(begun.nodes, calls[i].shown[j].id) by {
        let keys = t.listings[i];
        let p = calls[i].shown[j];
        assert(calls[i].shown == t.page::<NodePlace>(i as nat));
        assert(ascending::<NodePlace>(keys) && t.limits[i] > 0);
        lemma_page::<NodePlace>(keys, t.position::<NodePlace>(i as nat), t.limits[i]);
        assert(keys.contains(p));
    }
    if calls.last().next is None {
        let last = at[n - 1];
        assert forall|p: NodePlace| #[trigger]
            places(x, w).contains(p) && lookup(h[at.last()].nodes, p.id) == lookup(
                begun.nodes,
                p.id,
            ) implies all.contains(p) by {
            assert forall|i: int| 0 <= i < n implies (#[trigger] t.listings[i]).contains(p) by {
                assert(listable(calls[i].index) && calls[i].index.shows(h[at[i]]));
                assert(at[0] <= at[i] && at[i] <= at[n - 1]);
                law_run_keeps_the_store(h, ops, at[0], at[i]);
                law_run_keeps_the_store(h, ops, at[i], last);
                assert(projected_rows::<NodeId, NodeRow, IndexedNodeRow>(
                    begun.nodes,
                ).dom().contains(p.id) <==> begun.nodes.dom().contains(p.id));
                if lookup(h[last].nodes, p.id) != lookup(h[at[i]].nodes, p.id) {
                    assert(h[last].nodes[p.id].modified_revision > h[at[i]].revision);
                }
                law_watermark_excludes_later_changes(x, calls[i].index, h, ops, at[0], at[i], w);
                assert(places(calls[i].index, w).contains(p));
                lemma_places_listed(calls[i].index, w);
            }
            law_traversal_loses_nothing::<NodePlace>(t, n, p);
        }
    }
}

/// Of a tombstoned Node, and of one that is not there, nothing is seen in the graph or among the
/// orphans.
pub proof fn law_only_active_nodes_are_seen(x: IndexModel, id: NodeId)
    requires
        !x.active(id),
    ensures
        !active_ids(x).contains(id),
        !orphans(x).contains(id),
        !loose_ids(x).contains(id),
        forall|r: RelationshipView| #[trigger]
            canonical_edges(x).contains(r) ==> r.source != id && r.target != id,
        forall|k: DerivedKeyView| #[trigger]
            derived_edges(x).contains(k) ==> k.source != id && x.derived[k].target != Some(id),
{
}

} // verus!
