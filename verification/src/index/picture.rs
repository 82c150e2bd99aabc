//! What the graph, the orphans and the listing of the Nodes show, told of the facts and the content
//! that the Index holds.
use vstd::prelude::*;
use crate::api::{Relationship, RelationshipProvenance, RelationshipView};
use crate::id::NodeId;
use crate::index::graph::{
    active_ids, canonical_edges, derived_edges, edge_keys, edge_page_list, gives_title,
    graph_edge_list, graph_node_list, loose_ids, node_page_list, orphans, title_keys, title_of,
    titles, titles_before, EdgeKey, EdgeKeyView, GraphEdgeView, TitleKey, TitleKeyView,
};
use crate::index::model::{DerivedKey, DerivedKeyView, IndexModel};
use crate::index::nodes::{nodes_of, places, NodePlace};
use crate::index::reads::has_active;
use crate::node::Node;
use crate::paging::lemma_in_order_lists;
use crate::table::{ascending, in_order, TableKey};
use crate::text::{
    folded, hex_of, lemma_text_before_irreflexive, lemma_text_before_total,
    lemma_text_before_transitive, text_before,
};
use crate::value::ValueView;

verus! {

/// Whether a Relationship between two active Nodes, canonical or found in content, begins or ends
/// at a Node.
pub open spec fn has_edge(x: IndexModel, id: NodeId) -> bool {
    ||| exists|r: RelationshipView| #[trigger]
        x.relationships.dom().contains(r) && (r.source == id || r.target == id) && has_active(
            x,
            r.source,
        ) && has_active(x, r.target)
    ||| exists|k: DerivedKeyView| #[trigger]
        x.derived.dom().contains(k) && x.derived[k].target is Some && (k.source == id
            || x.derived[k].target == Some(id)) && has_active(x, k.source) && has_active(
            x,
            x.derived[k].target->0,
        )
}

/// Whether any Relationship, to or from whatever there is, begins or ends at a Node.
pub open spec fn has_any_link(x: IndexModel, id: NodeId) -> bool {
    ||| exists|r: RelationshipView| #[trigger]
        x.relationships.dom().contains(r) && (r.source == id || r.target == id)
    ||| exists|k: DerivedKeyView| #[trigger]
        x.derived.dom().contains(k) && (k.source == id || x.derived[k].target == Some(id))
}

proof fn lemma_connected(x: IndexModel, id: NodeId)
    ensures
        crate::index::graph::connected(x, id) <==> has_edge(x, id),
        crate::index::graph::linked(x, id) <==> has_any_link(x, id),
{
    if has_edge(x, id) {
        if exists|r: RelationshipView| #[trigger]
            x.relationships.dom().contains(r) && (r.source == id || r.target == id) && has_active(
                x,
                r.source,
            ) && has_active(x, r.target) {
            let r = choose|r: RelationshipView| #[trigger]
                x.relationships.dom().contains(r) && (r.source == id || r.target == id)
                    && has_active(x, r.source) && has_active(x, r.target);
            assert(crate::index::graph::is_edge(x, r));
        } else {
            let k = choose|k: DerivedKeyView| #[trigger]
                x.derived.dom().contains(k) && x.derived[k].target is Some && (k.source == id
                    || x.derived[k].target == Some(id)) && has_active(x, k.source) && has_active(
                    x,
                    x.derived[k].target->0,
                );
            assert(crate::index::graph::is_derived_edge(x, k));
        }
    }
    if crate::index::graph::connected(x, id) {
        if exists|r: RelationshipView| #[trigger]
            crate::index::graph::is_edge(x, r) && (r.source == id || r.target == id) {
            let r = choose|r: RelationshipView| #[trigger]
                crate::index::graph::is_edge(x, r) && (r.source == id || r.target == id);
            assert(x.relationships.dom().contains(r));
        } else {
            let k = choose|k: DerivedKeyView| #[trigger]
                crate::index::graph::is_derived_edge(x, k) && x.derived[k].target is Some && (
                k.source == id || x.derived[k].target == Some(id));
            assert(x.derived.dom().contains(k));
        }
    }
}

proof fn lemma_active_finite(x: IndexModel)
    requires
        x.nodes.dom().finite(),
    ensures
        active_ids(x).finite(),
        orphans(x).finite(),
        loose_ids(x).finite(),
        title_keys(x).finite(),
{
    vstd::set_lib::lemma_len_subset(active_ids(x), x.nodes.dom());
    vstd::set_lib::lemma_len_subset(orphans(x), x.nodes.dom());
    vstd::set_lib::lemma_len_subset(loose_ids(x), x.nodes.dom());
    let f = |id: NodeId| TitleKeyView { folded: folded(title_of(x, id)), id };
    x.nodes.dom().lemma_map_finite(f);
    assert(title_keys(x).subset_of(x.nodes.dom().map(f))) by {
        assert forall|k: TitleKeyView| title_keys(x).contains(k) implies x.nodes.dom().map(
            f,
        ).contains(k) by {
            assert(x.nodes.dom().contains(k.id));
            assert(f(k.id) == k);
        }
    }
    vstd::set_lib::lemma_len_subset(title_keys(x), x.nodes.dom().map(f));
}

/// The graph shows the active Nodes, each once, in the order of their IDs, with their titles; a Node
/// is an orphan there exactly where no Relationship between active Nodes begins or ends at it.
pub proof fn law_graph_shows_the_active_nodes(x: IndexModel)
    requires
        x.nodes.dom().finite(),
    ensures
        ({
            let list = graph_node_list(x);
            &&& forall|id: NodeId| #[trigger]
                has_active(x, id) ==> exists|i: int|
                    0 <= i < list.len() && (#[trigger] list[i]).node_id == id
            &&& forall|i: int|
                0 <= i < list.len() ==> {
                    &&& has_active(x, (#[trigger] list[i]).node_id)
                    &&& list[i].title == title_of(x, list[i].node_id)
                    &&& list[i].is_orphan <==> !has_edge(x, list[i].node_id)
                }
            &&& forall|i: int, j: int|
                0 <= i < j < list.len() ==> NodeId::before((#[trigger] list[i]).node_id, (
                #[trigger] list[j]).node_id)
        }),
{
    lemma_active_finite(x);
    lemma_in_order_lists::<NodeId>(active_ids(x));
    let ids = in_order::<NodeId>(active_ids(x));
    let list = graph_node_list(x);
    assert forall|id: NodeId| #[trigger] has_active(x, id) implies exists|i: int|
        0 <= i < list.len() && (#[trigger] list[i]).node_id == id by {
        assert(active_ids(x).contains(id));
        assert(ids.contains(id));
        assert(list[ids.index_of(id)].node_id == id);
    }
    assert forall|i: int| 0 <= i < list.len() implies has_active(x, (#[trigger] list[i]).node_id)
        && list[i].title == title_of(x, list[i].node_id) && (list[i].is_orphan <==> !has_edge(
        x,
        list[i].node_id,
    )) by {
        assert(ids.contains(ids[i]));
        lemma_connected(x, ids[i]);
    }
    assert forall|i: int, j: int| 0 <= i < j < list.len() implies NodeId::before(
        (#[trigger] list[i]).node_id,
        (#[trigger] list[j]).node_id,
    ) by {
        assert(NodeId::before(ids[i], ids[j]));
    }
}

/// The pages of the graph show the same Nodes with the same titles, by title without regard to ASCII
/// capitals, with the same title by ID; a Node is an orphan there exactly where no Relationship at all
/// begins or ends at it.
pub proof fn law_graph_pages_show_the_active_nodes(x: IndexModel)
    requires
        x.nodes.dom().finite(),
    ensures
        ({
            let list = node_page_list(x);
            &&& forall|id: NodeId| #[trigger]
                has_active(x, id) ==> exists|i: int|
                    0 <= i < list.len() && (#[trigger] list[i]).node_id == id
            &&& forall|i: int|
                0 <= i < list.len() ==> {
                    &&& has_active(x, (#[trigger] list[i]).node_id)
                    &&& list[i].title == title_of(x, list[i].node_id)
                    &&& list[i].is_orphan <==> !has_any_link(x, list[i].node_id)
                }
            &&& forall|i: int, j: int|
                0 <= i < j < list.len() ==> (#[trigger] list[i]).node_id != (
                #[trigger] list[j]).node_id && (text_before(
                    folded(list[i].title),
                    folded(list[j].title),
                ) || (folded(list[i].title) == folded(list[j].title) && NodeId::before(
                    list[i].node_id,
                    list[j].node_id,
                )))
        }),
{
    lemma_active_finite(x);
    let keys = in_order::<TitleKey>(title_keys(x));
    lemma_in_order_lists::<TitleKey>(title_keys(x));
    let list = node_page_list(x);
    assert forall|id: NodeId| #[trigger] has_active(x, id) implies exists|i: int|
        0 <= i < list.len() && (#[trigger] list[i]).node_id == id by {
        let k = TitleKeyView { folded: folded(title_of(x, id)), id };
        assert(title_keys(x).contains(k));
        assert(keys.contains(k));
        assert(list[keys.index_of(k)].node_id == id);
    }
    assert forall|i: int| 0 <= i < list.len() implies has_active(x, (#[trigger] list[i]).node_id)
        && list[i].title == title_of(x, list[i].node_id) && (list[i].is_orphan <==> !has_any_link(
        x,
        list[i].node_id,
    )) && keys[i].folded == folded(list[i].title) by {
        assert(keys.contains(keys[i]));
        lemma_connected(x, keys[i].id);
    }
    assert forall|i: int, j: int| 0 <= i < j < list.len() implies (#[trigger] list[i]).node_id != (
    #[trigger] list[j]).node_id && (text_before(folded(list[i].title), folded(list[j].title)) || (
    folded(list[i].title) == folded(list[j].title) && NodeId::before(
        list[i].node_id,
        list[j].node_id,
    ))) by {
        assert(TitleKey::before(keys[i], keys[j]));
        assert(keys[i].folded == folded(list[i].title));
        assert(keys[j].folded == folded(list[j].title));
        NodeId::before_irreflexive(keys[i].id);
        lemma_text_before_irreflexive(keys[i].folded);
    }
}

/// The orphans are the active Nodes at which no Relationship between active Nodes begins or ends;
/// counted and paged are those at which no Relationship at all does, which are some of them. Both stand
/// in the order of their IDs.
pub proof fn law_orphans_have_no_edge(x: IndexModel, id: NodeId)
    requires
        x.nodes.dom().finite(),
    ensures
        in_order::<NodeId>(orphans(x)).contains(id) <==> has_active(x, id) && !has_edge(x, id),
        in_order::<NodeId>(loose_ids(x)).contains(id) <==> has_active(x, id) && !has_any_link(
            x,
            id,
        ),
        in_order::<NodeId>(loose_ids(x)).contains(id) ==> in_order::<NodeId>(
            orphans(x),
        ).contains(id),
        in_order::<NodeId>(loose_ids(x)).len() == loose_ids(x).len(),
        ascending::<NodeId>(in_order::<NodeId>(orphans(x))),
        ascending::<NodeId>(in_order::<NodeId>(loose_ids(x))),
{
    lemma_active_finite(x);
    lemma_connected(x, id);
    lemma_in_order_lists::<NodeId>(orphans(x));
    lemma_in_order_lists::<NodeId>(loose_ids(x));
    if has_edge(x, id) {
        if exists|r: RelationshipView| #[trigger]
            x.relationships.dom().contains(r) && (r.source == id || r.target == id) && has_active(
                x,
                r.source,
            ) && has_active(x, r.target) {
            let r = choose|r: RelationshipView| #[trigger]
                x.relationships.dom().contains(r) && (r.source == id || r.target == id)
                    && has_active(x, r.source) && has_active(x, r.target);
            assert(x.relationships.dom().contains(r));
        } else {
            let k = choose|k: DerivedKeyView| #[trigger]
                x.derived.dom().contains(k) && x.derived[k].target is Some && (k.source == id
                    || x.derived[k].target == Some(id)) && has_active(x, k.source) && has_active(
                    x,
                    x.derived[k].target->0,
                );
            assert(x.derived.dom().contains(k));
        }
        assert(has_any_link(x, id));
    }
}

/// Whether an edge of the graph is a Relationship of the Index between active Nodes, or one found in
/// the content of an active Node that leads to no Node.
pub open spec fn is_edge_of(x: IndexModel, e: GraphEdgeView) -> bool {
    &&& has_active(x, e.source)
    &&& match e.provenance {
        RelationshipProvenance::CanonicalRecord => e.target is Some && has_active(x, e.target->0)
            && e.unresolved_target is None && x.relationships.dom().contains(
            RelationshipView {
                source: e.source,
                key: e.relationship_key,
                target: e.target->0,
            },
        ),
        RelationshipProvenance::ContentDerived => exists|k: DerivedKeyView| #[trigger]
            x.derived.dom().contains(k) && k.source == e.source && k.relationship_key
                == e.relationship_key && x.derived[k].target == e.target && match e.target {
                Some(target) => has_active(x, target) && e.unresolved_target is None,
                None => e.unresolved_target == Some(x.derived[k].target_text),
            },
    }
}

proof fn lemma_edges_finite(x: IndexModel)
    requires
        x.relationships.dom().finite(),
        x.derived.dom().finite(),
    ensures
        canonical_edges(x).finite(),
        derived_edges(x).finite(),
        edge_keys(x).finite(),
        edge_keys(x).len() == derived_edges(x).len(),
{
    vstd::set_lib::lemma_len_subset(canonical_edges(x), x.relationships.dom());
    vstd::set_lib::lemma_len_subset(derived_edges(x), x.derived.dom());
    let f = |k: DerivedKeyView|
        EdgeKeyView {
            key: k,
            target: x.derived[k].target,
            unresolved: crate::index::graph::unresolved(x.derived[k]),
        };
    derived_edges(x).lemma_map_finite(f);
    assert(edge_keys(x) =~= derived_edges(x).map(f)) by {
        assert forall|e: EdgeKeyView| edge_keys(x).contains(e) <==> derived_edges(x).map(
            f,
        ).contains(e) by {
            if edge_keys(x).contains(e) {
                assert(derived_edges(x).contains(e.key));
                assert(f(e.key) == e);
            }
        }
    }
    vstd::set_lib::lemma_map_size(derived_edges(x), edge_keys(x), f);
}

/// The edges of the graph are the Relationships between active Nodes, and what content of active
/// Nodes names without leading to a Node: each edge is one of those, each of those is an edge, and the
/// canonical ones come first. The pages hold as many edges, and the same ones.
pub proof fn law_graph_shows_the_edges(x: IndexModel)
    requires
        x.relationships.dom().finite(),
        x.derived.dom().finite(),
    ensures
        ({
            let list = graph_edge_list(x);
            let paged = edge_page_list(x);
            &&& forall|i: int| 0 <= i < list.len() ==> is_edge_of(x, #[trigger] list[i])
            &&& forall|i: int| 0 <= i < paged.len() ==> is_edge_of(x, #[trigger] paged[i])
            &&& paged.len() == list.len()
            &&& forall|r: RelationshipView| #[trigger]
                x.relationships.dom().contains(r) && has_active(x, r.source) && has_active(
                    x,
                    r.target,
                ) ==> shows_edge(list, r) && shows_edge(paged, r)
            &&& forall|k: DerivedKeyView| #[trigger]
                x.derived.dom().contains(k) && has_active(x, k.source) && (x.derived[k].target
                    is Some ==> has_active(x, x.derived[k].target->0)) ==> shows_content_edge(
                    x,
                    list,
                    k,
                ) && shows_content_edge(x, paged, k)
            &&& forall|i: int, j: int|
                0 <= i < j < list.len() && (#[trigger] list[i]).provenance is ContentDerived ==> (
                #[trigger] list[j]).provenance is ContentDerived
            &&& list.len() == canonical_count(x) + content_count(x)
        }),
{
    lemma_edges_finite(x);
    let c = in_order::<Relationship>(canonical_edges(x));
    let d = in_order::<DerivedKey>(derived_edges(x));
    let e = in_order::<EdgeKey>(edge_keys(x));
    lemma_in_order_lists::<Relationship>(canonical_edges(x));
    lemma_in_order_lists::<DerivedKey>(derived_edges(x));
    lemma_in_order_lists::<EdgeKey>(edge_keys(x));
    let list = graph_edge_list(x);
    let paged = edge_page_list(x);
    assert forall|i: int| 0 <= i < list.len() implies is_edge_of(x, #[trigger] list[i]) && (
    list[i].provenance is ContentDerived <==> i >= c.len()) by {
        if i < c.len() {
            assert(c.contains(c[i]));
        } else {
            let k = d[i - c.len()];
            assert(d.contains(k));
            assert(x.derived.dom().contains(k));
        }
    }
    assert forall|i: int| 0 <= i < paged.len() implies is_edge_of(x, #[trigger] paged[i]) by {
        if i < c.len() {
            assert(c.contains(c[i]));
        } else {
            let k = e[i - c.len()];
            assert(e.contains(k));
            assert(x.derived.dom().contains(k.key));
        }
    }
    assert forall|r: RelationshipView| #[trigger] x.relationships.dom().contains(r) && has_active(
        x,
        r.source,
    ) && has_active(x, r.target) implies shows_edge(list, r) && shows_edge(paged, r) by {
        assert(canonical_edges(x).contains(r));
        assert(c.contains(r));
        let i = c.index_of(r);
        assert(list[i].source == r.source && paged[i].source == r.source);
    }
    assert forall|k: DerivedKeyView| #[trigger] x.derived.dom().contains(k) && has_active(
        x,
        k.source,
    ) && (x.derived[k].target is Some ==> has_active(
        x,
        x.derived[k].target->0,
    )) implies shows_content_edge(x, list, k) && shows_content_edge(x, paged, k) by {
        assert(derived_edges(x).contains(k));
        assert(d.contains(k));
        let i = c.len() + d.index_of(k);
        assert(list[i].source == k.source);
        let key = EdgeKeyView {
            key: k,
            target: x.derived[k].target,
            unresolved: crate::index::graph::unresolved(x.derived[k]),
        };
        assert(edge_keys(x).contains(key));
        assert(e.contains(key));
        let j = c.len() + e.index_of(key);
        assert(paged[j].source == k.source);
    }
    assert(canonical_edges(x) =~= x.relationships.dom().filter(
        |r: RelationshipView| has_active(x, r.source) && has_active(x, r.target),
    ));
    assert(derived_edges(x) =~= x.derived.dom().filter(
        |k: DerivedKeyView|
            has_active(x, k.source) && (x.derived[k].target is Some ==> has_active(
                x,
                x.derived[k].target->0,
            )),
    ));
}

/// How many canonical Relationships are between active Nodes.
pub open spec fn canonical_count(x: IndexModel) -> nat {
    x.relationships.dom().filter(
        |r: RelationshipView| has_active(x, r.source) && has_active(x, r.target),
    ).len()
}

/// How many Relationships found in content are between active Nodes, or lead from one to no Node.
pub open spec fn content_count(x: IndexModel) -> nat {
    x.derived.dom().filter(
        |k: DerivedKeyView|
            has_active(x, k.source) && (x.derived[k].target is Some ==> has_active(
                x,
                x.derived[k].target->0,
            )),
    ).len()
}

/// Whether a list of edges shows a canonical Relationship.
pub open spec fn shows_edge(list: Seq<GraphEdgeView>, r: RelationshipView) -> bool {
    exists|i: int|
        0 <= i < list.len() && (#[trigger] list[i]).source == r.source && list[i].relationship_key
            == r.key && list[i].target == Some(r.target) && list[i].unresolved_target is None
            && list[i].provenance is CanonicalRecord
}

/// Whether a list of edges shows a Relationship found in content.
pub open spec fn shows_content_edge(
    x: IndexModel,
    list: Seq<GraphEdgeView>,
    k: DerivedKeyView,
) -> bool {
    exists|i: int|
        0 <= i < list.len() && (#[trigger] list[i]).source == k.source && list[i].relationship_key
            == k.relationship_key && list[i].target == x.derived[k].target && list[i].provenance
            is ContentDerived && (x.derived[k].target is None ==> list[i].unresolved_target == Some(
            x.derived[k].target_text,
        ))
}

/// How early a kind of source gives titles: pages first, then files, then all else.
pub open spec fn source_place(source_kind: Seq<char>) -> int {
    if source_kind == "page"@ {
        0
    } else if source_kind == "file"@ {
        1
    } else {
        2
    }
}

proof fn lemma_title_first(x: IndexModel, id: NodeId, some: Set<Seq<char>>) -> (first: Seq<char>)
    requires
        some.finite(),
        some.len() > 0,
        forall|k: Seq<char>| #[trigger] some.contains(k) ==> titles(x, id, k),
    ensures
        some.contains(first),
        forall|k: Seq<char>| #[trigger]
            some.contains(k) && k != first ==> titles_before(x, first, k),
    decreases some.len(),
{
    let k = some.choose();
    let rest = some.remove(k);
    if rest.len() == 0 {
        assert(rest =~= Set::empty());
        assert forall|other: Seq<char>| #[trigger] some.contains(other) && other
            != k implies titles_before(x, k, other) by {
            assert(rest.contains(other));
        }
        k
    } else {
        let f = lemma_title_first(x, id, rest);
        lemma_text_before_total(f, k);
        if titles_before(x, f, k) {
            assert forall|other: Seq<char>| #[trigger] some.contains(other) && other
                != f implies titles_before(x, f, other) by {
                if other != k {
                    assert(rest.contains(other));
                }
            }
            f
        } else {
            assert(titles_before(x, k, f));
            assert forall|other: Seq<char>| #[trigger] some.contains(other) && other
                != k implies titles_before(x, k, other) by {
                assert(rest.contains(other));
                if other != f {
                    assert(titles_before(x, f, other));
                    if text_before(k, f) && text_before(f, other) {
                        lemma_text_before_transitive(k, f, other);
                    }
                }
            }
            k
        }
    }
}

/// The title of a Node is the text of its own title Property where that is a text, date or date-time
/// with a character in it; else that of one of its documents with a title, such that none of the
/// others is of an earlier kind of source, or of the same kind with an earlier key; else the
/// hexadecimal notation of its ID.
pub proof fn law_titles_are_found(x: IndexModel, id: NodeId)
    requires
        x.documents.dom().finite(),
    ensures
        ({
            let has = x.nodes[id].properties.dom().contains("core.title"@);
            let own = match x.nodes[id].properties["core.title"@].value {
                ValueView::Text(t) => t,
                ValueView::Date(t) => t,
                ValueView::DateTime(t) => t,
                _ => Seq::empty(),
            };
            let titled = |k: Seq<char>|
                x.documents.dom().contains(k) && x.documents[k].node_id == id
                    && x.documents[k].title.len() > 0;
            &&& has && own.len() > 0 ==> title_of(x, id) == own
            &&& !(has && own.len() > 0) && !(exists|k: Seq<char>| #[trigger] titled(k)) ==> title_of(
                x,
                id,
            ) == hex_of(id.spec_bytes())
            &&& !(has && own.len() > 0) && (exists|k: Seq<char>| #[trigger] titled(k)) ==> exists|
                k: Seq<char>,
            | #[trigger]
                titled(k) && title_of(x, id) == x.documents[k].title && forall|other: Seq<char>|
                    #[trigger] titled(other) && other != k ==> source_place(
                        x.documents[k].source_kind,
                    ) < source_place(x.documents[other].source_kind) || (source_place(
                        x.documents[k].source_kind,
                    ) == source_place(x.documents[other].source_kind) && text_before(k, other))
        }),
{
    let titled = |k: Seq<char>|
        x.documents.dom().contains(k) && x.documents[k].node_id == id && x.documents[k].title.len()
            > 0;
    if exists|k: Seq<char>| #[trigger] titled(k) {
        let some = x.documents.dom().filter(titled);
        let any = choose|k: Seq<char>| #[trigger] titled(k);
        assert(some.contains(any));
        assert(some.finite());
        assert(some.len() > 0) by {
            if some.len() == 0 {
                assert(some =~= Set::empty());
            }
        }
        assert forall|k: Seq<char>| #[trigger] some.contains(k) implies titles(x, id, k) by {
            assert(titled(k));
        }
        let first = lemma_title_first(x, id, some);
        assert(titles(x, id, any));
        assert(gives_title(x, id, first)) by {
            assert forall|other: Seq<char>|
                #[trigger] titles(x, id, other) && other != first implies titles_before(
                x,
                first,
                other,
            ) by {
                assert(titled(other));
                assert(some.contains(other));
            }
        }
        let k = choose|key: Seq<char>| gives_title(x, id, key);
        assert(gives_title(x, id, k));
        assert(titled(k));
        assert forall|other: Seq<char>| #[trigger] titled(other) && other != k implies source_place(
            x.documents[k].source_kind,
        ) < source_place(x.documents[other].source_kind) || (source_place(
            x.documents[k].source_kind,
        ) == source_place(x.documents[other].source_kind) && text_before(k, other)) by {
            assert(titles(x, id, other));
            assert(titles_before(x, k, other));
        }
    } else {
        assert forall|k: Seq<char>| !titles(x, id, k) by {
            if titles(x, id, k) {
                assert(titled(k));
            }
        }
    }
}

/// The listing shows every Node that the Index has, in whatever state, each once, with its state: the
/// latest changed first, and those changed at the same revision by ID. Under a watermark it shows of
/// those the ones that were changed no later.
pub proof fn law_listing_shows_the_nodes(
    x: IndexModel,
    watermark: u64,
    nodes: Seq<Node>,
    i: int,
    j: int,
)
    requires
        x.nodes.dom().finite(),
        nodes_of(nodes, in_order::<NodePlace>(places(x, watermark)), x),
        0 <= i < j < nodes.len(),
    ensures
        forall|id: NodeId| #[trigger]
            x.nodes.dom().contains(id) && x.nodes[id].modified_revision <= watermark ==> exists|
                k: int,
            |
                0 <= k < nodes.len() && (#[trigger] nodes[k]).id == id,
        forall|k: int|
            0 <= k < nodes.len() ==> x.nodes.dom().contains((#[trigger] nodes[k]).id)
                && nodes[k].lifecycle_state == x.nodes[nodes[k].id].lifecycle_state
                && x.nodes[nodes[k].id].modified_revision <= watermark,
        nodes[i].id != nodes[j].id,
        x.nodes[nodes[i].id].modified_revision >= x.nodes[nodes[j].id].modified_revision,
        x.nodes[nodes[i].id].modified_revision == x.nodes[nodes[j].id].modified_revision
            ==> NodeId::before(nodes[i].id, nodes[j].id),
{
    let set = places(x, watermark);
    let f = |id: NodeId|
        NodePlace { modified_revision: x.nodes[id].modified_revision, id };
    x.nodes.dom().lemma_map_finite(f);
    assert(set.subset_of(x.nodes.dom().map(f))) by {
        assert forall|p: NodePlace| set.contains(p) implies x.nodes.dom().map(f).contains(p) by {
            assert(x.nodes.dom().contains(p.id));
            assert(f(p.id) == p);
        }
    }
    vstd::set_lib::lemma_len_subset(set, x.nodes.dom().map(f));
    lemma_in_order_lists::<NodePlace>(set);
    let keys = in_order::<NodePlace>(set);
    assert forall|id: NodeId| #[trigger] x.nodes.dom().contains(id)
        && x.nodes[id].modified_revision <= watermark implies exists|k: int|
        0 <= k < nodes.len() && (#[trigger] nodes[k]).id == id by {
        let p = f(id);
        assert(set.contains(p));
        assert(keys.contains(p));
        assert(nodes[keys.index_of(p)].id == id);
    }
    assert forall|k: int| 0 <= k < nodes.len() implies x.nodes.dom().contains(
        (#[trigger] nodes[k]).id,
    ) && nodes[k].lifecycle_state == x.nodes[nodes[k].id].lifecycle_state
        && x.nodes[nodes[k].id].modified_revision <= watermark
        && x.nodes[nodes[k].id].modified_revision == keys[k].modified_revision by {
        assert(keys.contains(keys[k]));
    }
    assert(NodePlace::before(keys[i], keys[j]));
    NodeId::before_irreflexive(keys[i].id);
    assert(nodes[i].id == keys[i].id && nodes[j].id == keys[j].id);
}

/// Edges of the same provenance stand by source and, with the same source, by key; canonical ones with
/// both the same by target. On the pages those found in content stand by target then, those that lead
/// to no Node first and by what they name.
pub proof fn law_edges_are_ordered(x: IndexModel, i: int, j: int)
    requires
        x.relationships.dom().finite(),
        x.derived.dom().finite(),
        0 <= i < j < graph_edge_list(x).len(),
    ensures
        ({
            let a = graph_edge_list(x)[i];
            let b = graph_edge_list(x)[j];
            a.provenance == b.provenance ==> {
                ||| NodeId::before(a.source, b.source)
                ||| a.source == b.source && text_before(a.relationship_key, b.relationship_key)
                ||| a.source == b.source && a.relationship_key == b.relationship_key && (
                a.provenance is ContentDerived || NodeId::before(a.target->0, b.target->0))
            }
        }),
        ({
            let a = edge_page_list(x)[i];
            let b = edge_page_list(x)[j];
            a.provenance == b.provenance ==> {
                ||| NodeId::before(a.source, b.source)
                ||| a.source == b.source && text_before(a.relationship_key, b.relationship_key)
                ||| a.source == b.source && a.relationship_key == b.relationship_key && match (
                    a.target,
                    b.target,
                ) {
                    (Some(p), Some(q)) => NodeId::before(p, q) || (p == q && a.provenance
                        is ContentDerived),
                    (None, Some(_)) => true,
                    (None, None) => a.unresolved_target == b.unresolved_target || text_before(
                        a.unresolved_target->0,
                        b.unresolved_target->0,
                    ),
                    (Some(_), None) => false,
                }
            }
        }),
{
    lemma_edges_finite(x);
    let c = in_order::<Relationship>(canonical_edges(x));
    let d = in_order::<DerivedKey>(derived_edges(x));
    let e = in_order::<EdgeKey>(edge_keys(x));
    lemma_in_order_lists::<Relationship>(canonical_edges(x));
    lemma_in_order_lists::<DerivedKey>(derived_edges(x));
    lemma_in_order_lists::<EdgeKey>(edge_keys(x));
    let n = c.len();
    if j < n {
        assert(Relationship::before(c[i], c[j]));
    } else if i >= n {
        assert(DerivedKey::before(d[i - n], d[j - n]));
        assert(EdgeKey::before(e[i - n], e[j - n]));
        assert(e.contains(e[i - n]) && e.contains(e[j - n]));
        assert(edge_keys(x).contains(e[i - n]) && edge_keys(x).contains(e[j - n]));
    }
}

} // verus!
