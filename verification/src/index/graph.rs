//! The graph of the active Nodes, and the Nodes that nothing links.
use vstd::prelude::*;
use crate::api::{
    optional_text, page_fault, page_of, window_bounds, GraphEdge, GraphNode, GraphProjection,
    ReadPage, Relationship, RelationshipProvenance, RelationshipView,
};
use crate::error::CoreError;
use crate::id::NodeId;
use crate::index::model::{
    lemma_spot_irreflexive, lemma_spot_total, lemma_spot_transitive, spot_before, DerivedKey,
    DerivedKeyView, DerivedRow, DerivedRowView, IndexModel, IndexStore,
};
use crate::node::LifecycleState;
use crate::record_store::model::Present;
use crate::table::{in_order, lemma_next_is_new, Table, TableKey};
use crate::text::{
    fold_case, folded, hex, hex_of, lemma_text_before_irreflexive, lemma_text_before_total,
    lemma_text_before_transitive, same_text, str_before, text_before,
};
use crate::value::{PropertyValue, ValueView};

verus! {

/// A Node of the graph, its title taken as a sequence of characters.
pub struct GraphNodeView {
    pub node_id: NodeId,
    pub title: Seq<char>,
    pub is_orphan: bool,
}

impl View for GraphNode {
    type V = GraphNodeView;

    open spec fn view(&self) -> GraphNodeView {
        GraphNodeView {
            node_id: self.node_id,
            title: self.title@,
            is_orphan: self.is_orphan,
        }
    }
}

/// An edge of the graph, its texts taken as sequences of characters.
pub struct GraphEdgeView {
    pub source: NodeId,
    pub relationship_key: Seq<char>,
    pub target: Option<NodeId>,
    pub unresolved_target: Option<Seq<char>>,
    pub provenance: RelationshipProvenance,
}

impl View for GraphEdge {
    type V = GraphEdgeView;

    open spec fn view(&self) -> GraphEdgeView {
        GraphEdgeView {
            source: self.source,
            relationship_key: self.relationship_key@,
            target: self.target,
            unresolved_target: optional_text(self.unresolved_target),
            provenance: self.provenance,
        }
    }
}

/// The views of a run of Nodes of the graph.
pub open spec fn graph_nodes_view(nodes: Seq<GraphNode>) -> Seq<GraphNodeView> {
    Seq::new(nodes.len(), |i: int| nodes[i]@)
}

/// The views of a run of edges.
pub open spec fn edges_view(edges: Seq<GraphEdge>) -> Seq<GraphEdgeView> {
    Seq::new(edges.len(), |i: int| edges[i]@)
}

/// The text of a value that is kept as text.
pub open spec fn text_of_value(v: ValueView) -> Seq<char> {
    match v {
        ValueView::Text(t) => t,
        ValueView::Date(t) => t,
        ValueView::DateTime(t) => t,
        _ => Seq::empty(),
    }
}

/// The title that a Node gives itself; empty where it gives none.
pub open spec fn own_title(x: IndexModel, id: NodeId) -> Seq<char> {
    if x.nodes[id].properties.dom().contains("core.title"@) {
        text_of_value(x.nodes[id].properties["core.title"@].value)
    } else {
        Seq::empty()
    }
}

/// Whether a document gives a Node a title.
pub open spec fn titles(x: IndexModel, id: NodeId, key: Seq<char>) -> bool {
    x.documents.dom().contains(key) && x.documents[key].node_id == id && x.documents[key].title.len()
        > 0
}

/// Pages give titles first, then files, then all else.
pub open spec fn title_rank(source_kind: Seq<char>) -> int {
    if source_kind == "page"@ {
        0
    } else if source_kind == "file"@ {
        1
    } else {
        2
    }
}

/// Whether one document gives the title rather than another: by kind of source, then by key.
pub open spec fn titles_before(x: IndexModel, a: Seq<char>, b: Seq<char>) -> bool {
    let p = title_rank(x.documents[a].source_kind);
    let q = title_rank(x.documents[b].source_kind);
    p < q || (p == q && text_before(a, b))
}

/// Whether a document is the one that gives a Node its title.
pub open spec fn gives_title(x: IndexModel, id: NodeId, key: Seq<char>) -> bool {
    &&& titles(x, id, key)
    &&& forall|other: Seq<char>|
        #[trigger] titles(x, id, other) && other != key ==> titles_before(x, key, other)
}

/// The title of a Node: its own, else that of the first document that has one, else its ID.
pub open spec fn title_of(x: IndexModel, id: NodeId) -> Seq<char> {
    if own_title(x, id).len() > 0 {
        own_title(x, id)
    } else if exists|key: Seq<char>| titles(x, id, key) {
        x.documents[choose|key: Seq<char>| gives_title(x, id, key)].title
    } else {
        hex_of(id.spec_bytes())
    }
}

proof fn lemma_title_unique(x: IndexModel, id: NodeId, a: Seq<char>, b: Seq<char>)
    requires
        gives_title(x, id, a),
        gives_title(x, id, b),
    ensures
        a == b,
{
    if a != b {
        assert(titles(x, id, a) && titles(x, id, b));
        assert(titles_before(x, a, b) && titles_before(x, b, a));
        lemma_text_before_transitive(a, b, a);
        lemma_text_before_irreflexive(a);
    }
}

/// The active Nodes.
pub open spec fn active_ids(x: IndexModel) -> Set<NodeId> {
    Set::new(|id: NodeId| x.active(id))
}

/// Whether a canonical Relationship is an edge: both of its ends are active.
pub open spec fn is_edge(x: IndexModel, r: RelationshipView) -> bool {
    x.relationships.dom().contains(r) && x.active(r.source) && x.active(r.target)
}

/// Whether a derived Relationship is an edge: its source is active, and so is its target if it has
/// one.
pub open spec fn is_derived_edge(x: IndexModel, k: DerivedKeyView) -> bool {
    x.derived.dom().contains(k) && x.active(k.source) && match x.derived[k].target {
        Some(target) => x.active(target),
        None => true,
    }
}

/// The canonical edges.
pub open spec fn canonical_edges(x: IndexModel) -> Set<RelationshipView> {
    Set::new(|r: RelationshipView| is_edge(x, r))
}

/// The derived edges.
pub open spec fn derived_edges(x: IndexModel) -> Set<DerivedKeyView> {
    Set::new(|k: DerivedKeyView| is_derived_edge(x, k))
}

/// A canonical Relationship as an edge.
pub open spec fn canonical_edge(r: RelationshipView) -> GraphEdgeView {
    GraphEdgeView {
        source: r.source,
        relationship_key: r.key,
        target: Some(r.target),
        unresolved_target: None,
        provenance: RelationshipProvenance::CanonicalRecord,
    }
}

/// What a derived Relationship leads to where it leads to no Node.
pub open spec fn unresolved(row: DerivedRowView) -> Option<Seq<char>> {
    if row.target is None {
        Some(row.target_text)
    } else {
        None
    }
}

/// A derived Relationship as an edge.
pub open spec fn derived_edge(x: IndexModel, k: DerivedKeyView) -> GraphEdgeView {
    GraphEdgeView {
        source: k.source,
        relationship_key: k.relationship_key,
        target: x.derived[k].target,
        unresolved_target: unresolved(x.derived[k]),
        provenance: RelationshipProvenance::ContentDerived,
    }
}

/// Whether an edge of the graph that leads to a Node ends or begins here.
pub open spec fn connected(x: IndexModel, id: NodeId) -> bool {
    ||| exists|r: RelationshipView| #[trigger] is_edge(x, r) && (r.source == id || r.target == id)
    ||| exists|k: DerivedKeyView| #[trigger]
        is_derived_edge(x, k) && x.derived[k].target is Some && (k.source == id
            || x.derived[k].target == Some(id))
}

/// Whether any Relationship at all, canonical or derived, ends or begins here.
pub open spec fn linked(x: IndexModel, id: NodeId) -> bool {
    ||| exists|r: RelationshipView| #[trigger]
        x.relationships.dom().contains(r) && (r.source == id || r.target == id)
    ||| exists|k: DerivedKeyView| #[trigger]
        x.derived.dom().contains(k) && (k.source == id || x.derived[k].target == Some(id))
}

/// The Nodes of the graph, in the order of their IDs.
pub open spec fn graph_node_list(x: IndexModel) -> Seq<GraphNodeView> {
    let ids = in_order::<NodeId>(active_ids(x));
    Seq::new(
        ids.len(),
        |i: int|
            GraphNodeView {
                node_id: ids[i],
                title: title_of(x, ids[i]),
                is_orphan: !connected(x, ids[i]),
            },
    )
}

/// The edges of the graph: the canonical ones, then the derived ones by source, key and place.
pub open spec fn graph_edge_list(x: IndexModel) -> Seq<GraphEdgeView> {
    let canonical = in_order::<Relationship>(canonical_edges(x));
    let derived = in_order::<DerivedKey>(derived_edges(x));
    Seq::new(canonical.len(), |i: int| canonical_edge(canonical[i])) + Seq::new(
        derived.len(),
        |i: int| derived_edge(x, derived[i]),
    )
}

/// A derived edge at its place among the pages of edges.
pub struct EdgeKey {
    pub key: DerivedKey,
    pub target: Option<NodeId>,
    pub unresolved: Option<String>,
}

pub struct EdgeKeyView {
    pub key: DerivedKeyView,
    pub target: Option<NodeId>,
    pub unresolved: Option<Seq<char>>,
}

impl View for EdgeKey {
    type V = EdgeKeyView;

    open spec fn view(&self) -> EdgeKeyView {
        EdgeKeyView {
            key: self.key@,
            target: self.target,
            unresolved: optional_text(self.unresolved),
        }
    }
}

/// The order of optional IDs: none first.
pub open spec fn optional_id_before(a: Option<NodeId>, b: Option<NodeId>) -> bool {
    match (a, b) {
        (None, Some(_)) => true,
        (Some(p), Some(q)) => NodeId::before(p, q),
        _ => false,
    }
}

/// The order of optional texts: none first.
pub open spec fn optional_text_before(a: Option<Seq<char>>, b: Option<Seq<char>>) -> bool {
    match (a, b) {
        (None, Some(_)) => true,
        (Some(s), Some(t)) => text_before(s, t),
        _ => false,
    }
}

fn optional_id_is_before(a: &Option<NodeId>, b: &Option<NodeId>) -> (r: bool)
    ensures
        r == optional_id_before(*a, *b),
{
    match (a, b) {
        (None, Some(_)) => true,
        (Some(p), Some(q)) => p.is_before(q),
        _ => false,
    }
}

fn optional_text_is_before(a: &Option<String>, b: &Option<String>) -> (r: bool)
    ensures
        r == optional_text_before(optional_text(*a), optional_text(*b)),
{
    match (a, b) {
        (None, Some(_)) => true,
        (Some(s), Some(t)) => str_before(s.as_str(), t.as_str()),
        _ => false,
    }
}

proof fn lemma_optional_id(a: Option<NodeId>, b: Option<NodeId>, c: Option<NodeId>)
    ensures
        !optional_id_before(a, a),
        a == b || optional_id_before(a, b) || optional_id_before(b, a),
        optional_id_before(a, b) && optional_id_before(b, c) ==> optional_id_before(a, c),
{
    if a is Some {
        NodeId::before_irreflexive(a->0);
        if b is Some {
            NodeId::before_total(a->0, b->0);
            if c is Some && optional_id_before(a, b) && optional_id_before(b, c) {
                NodeId::before_transitive(a->0, b->0, c->0);
            }
        }
    }
}

proof fn lemma_optional_text(
    a: Option<Seq<char>>,
    b: Option<Seq<char>>,
    c: Option<Seq<char>>,
)
    ensures
        !optional_text_before(a, a),
        a == b || optional_text_before(a, b) || optional_text_before(b, a),
        optional_text_before(a, b) && optional_text_before(b, c) ==> optional_text_before(a, c),
{
    if a is Some {
        lemma_text_before_irreflexive(a->0);
        if b is Some {
            lemma_text_before_total(a->0, b->0);
            if c is Some && optional_text_before(a, b) && optional_text_before(b, c) {
                lemma_text_before_transitive(a->0, b->0, c->0);
            }
        }
    }
}

/// Derived edges stand by source, key, target, unresolved target and place.
impl TableKey for EdgeKey {
    open spec fn before(a: EdgeKeyView, b: EdgeKeyView) -> bool {
        if a.key.source != b.key.source {
            NodeId::before(a.key.source, b.key.source)
        } else if a.key.relationship_key != b.key.relationship_key {
            text_before(a.key.relationship_key, b.key.relationship_key)
        } else if a.target != b.target {
            optional_id_before(a.target, b.target)
        } else if a.unresolved != b.unresolved {
            optional_text_before(a.unresolved, b.unresolved)
        } else {
            spot_before(a.key, b.key)
        }
    }

    proof fn before_irreflexive(a: EdgeKeyView) {
        lemma_spot_irreflexive(a.key);
    }

    proof fn before_transitive(a: EdgeKeyView, b: EdgeKeyView, c: EdgeKeyView) {
        lemma_optional_id(a.target, b.target, c.target);
        lemma_optional_text(a.unresolved, b.unresolved, c.unresolved);
        NodeId::before_irreflexive(a.key.source);
        lemma_text_before_irreflexive(a.key.relationship_key);
        if a.key.source != b.key.source && b.key.source != c.key.source {
            NodeId::before_transitive(a.key.source, b.key.source, c.key.source);
        } else if a.key.source == b.key.source && b.key.source == c.key.source {
            if a.key.relationship_key != b.key.relationship_key && b.key.relationship_key
                != c.key.relationship_key {
                lemma_text_before_transitive(
                    a.key.relationship_key,
                    b.key.relationship_key,
                    c.key.relationship_key,
                );
            } else if a.key.relationship_key == b.key.relationship_key && b.key.relationship_key
                == c.key.relationship_key && a.target == b.target && b.target == c.target
                && a.unresolved == b.unresolved && b.unresolved == c.unresolved {
                lemma_spot_transitive(a.key, b.key, c.key);
            }
        }
    }

    proof fn before_total(a: EdgeKeyView, b: EdgeKeyView) {
        NodeId::before_total(a.key.source, b.key.source);
        lemma_text_before_total(a.key.relationship_key, b.key.relationship_key);
        lemma_optional_id(a.target, b.target, a.target);
        lemma_optional_text(a.unresolved, b.unresolved, a.unresolved);
        lemma_spot_total(a.key, b.key);
    }

    fn is_before(&self, other: &EdgeKey) -> (r: bool) {
        proof {
            lemma_optional_id(self.target, other.target, self.target);
            lemma_optional_text(self@.unresolved, other@.unresolved, self@.unresolved);
        }
        if !self.key.source.same(&other.key.source) {
            self.key.source.is_before(&other.key.source)
        } else if !same_text(
            self.key.relationship_key.as_str(),
            other.key.relationship_key.as_str(),
        ) {
            str_before(
                self.key.relationship_key.as_str(),
                other.key.relationship_key.as_str(),
            )
        } else if optional_id_is_before(&self.target, &other.target) {
            true
        } else if optional_id_is_before(&other.target, &self.target) {
            false
        } else if optional_text_is_before(&self.unresolved, &other.unresolved) {
            true
        } else if optional_text_is_before(&other.unresolved, &self.unresolved) {
            false
        } else {
            self.key.spot_is_before(&other.key)
        }
    }

    fn copy_key(&self) -> (r: EdgeKey) {
        EdgeKey {
            key: self.key.clone(),
            target: self.target,
            unresolved: crate::api::clone_optional_text(&self.unresolved),
        }
    }
}

/// The derived edges at their places among the pages of edges.
pub open spec fn edge_keys(x: IndexModel) -> Set<EdgeKeyView> {
    Set::new(
        |e: EdgeKeyView|
            is_derived_edge(x, e.key) && e.target == x.derived[e.key].target && e.unresolved
                == unresolved(x.derived[e.key]),
    )
}

/// The edges in the order of their pages: the canonical ones, then the derived ones by source,
/// key, target, unresolved target and place.
pub open spec fn edge_page_list(x: IndexModel) -> Seq<GraphEdgeView> {
    let canonical = in_order::<Relationship>(canonical_edges(x));
    let derived = in_order::<EdgeKey>(edge_keys(x));
    Seq::new(canonical.len(), |i: int| canonical_edge(canonical[i])) + Seq::new(
        derived.len(),
        |i: int| derived_edge(x, derived[i].key),
    )
}

/// The active Nodes without an edge to another Node.
pub open spec fn orphans(x: IndexModel) -> Set<NodeId> {
    Set::new(|id: NodeId| x.active(id) && !connected(x, id))
}

/// The active Nodes without any Relationship.
pub open spec fn loose_ids(x: IndexModel) -> Set<NodeId> {
    Set::new(|id: NodeId| x.active(id) && !linked(x, id))
}

/// A Node at its place among the pages of Nodes: by title, then by ID. Titles that differ only in
/// ASCII capitals stand together.
pub struct TitleKey {
    pub folded: String,
    pub id: NodeId,
}

pub struct TitleKeyView {
    pub folded: Seq<char>,
    pub id: NodeId,
}

impl View for TitleKey {
    type V = TitleKeyView;

    open spec fn view(&self) -> TitleKeyView {
        TitleKeyView { folded: self.folded@, id: self.id }
    }
}

impl TableKey for TitleKey {
    open spec fn before(a: TitleKeyView, b: TitleKeyView) -> bool {
        if a.folded != b.folded {
            text_before(a.folded, b.folded)
        } else {
            NodeId::before(a.id, b.id)
        }
    }

    proof fn before_irreflexive(a: TitleKeyView) {
        NodeId::before_irreflexive(a.id);
    }

    proof fn before_transitive(a: TitleKeyView, b: TitleKeyView, c: TitleKeyView) {
        if a.folded == b.folded && b.folded == c.folded {
            NodeId::before_transitive(a.id, b.id, c.id);
        } else if a.folded != b.folded && b.folded != c.folded {
            lemma_text_before_transitive(a.folded, b.folded, c.folded);
            lemma_text_before_irreflexive(a.folded);
        }
    }

    proof fn before_total(a: TitleKeyView, b: TitleKeyView) {
        lemma_text_before_total(a.folded, b.folded);
        NodeId::before_total(a.id, b.id);
    }

    fn is_before(&self, other: &TitleKey) -> (r: bool) {
        if !same_text(self.folded.as_str(), other.folded.as_str()) {
            str_before(self.folded.as_str(), other.folded.as_str())
        } else {
            self.id.is_before(&other.id)
        }
    }

    fn copy_key(&self) -> (r: TitleKey) {
        TitleKey { folded: self.folded.clone(), id: self.id }
    }
}

/// The active Nodes at their places among the pages of Nodes.
pub open spec fn title_keys(x: IndexModel) -> Set<TitleKeyView> {
    Set::new(|k: TitleKeyView| x.active(k.id) && k.folded == folded(title_of(x, k.id)))
}

/// The Nodes of the graph in the order of their pages: by title, then by ID. A page counts any
/// Relationship at all.
pub open spec fn node_page_list(x: IndexModel) -> Seq<GraphNodeView> {
    let keys = in_order::<TitleKey>(title_keys(x));
    Seq::new(
        keys.len(),
        |i: int|
            GraphNodeView {
                node_id: keys[i].id,
                title: title_of(x, keys[i].id),
                is_orphan: !linked(x, keys[i].id),
            },
    )
}

fn title_place(source_kind: &str) -> (r: u8)
    ensures
        r == title_rank(source_kind@),
{
    if same_text(source_kind, "page") {
        0
    } else if same_text(source_kind, "file") {
        1
    } else {
        2
    }
}

impl IndexStore {
    /// The place of the document that gives a Node its title.
    fn title_document(&self, id: NodeId) -> (r: Option<usize>)
        requires
            self.wf(),
        ensures
            match r {
                Some(i) => i < self.documents.keys().len() && gives_title(
                    self@,
                    id,
                    self.documents.keys()[i as int],
                ),
                None => !exists|key: Seq<char>| titles(self@, id, key),
            },
    {
        let table = &self.documents;
        let ghost x = self@;
        let ghost keys = table.keys();
        let mut best: Option<usize> = None;
        let mut i: usize = 0;
        while i < table.len()
            invariant
                self.wf(),
                table == &self.documents,
                keys == table.keys(),
                x == self@,
                i <= keys.len(),
                match best {
                    None => forall|j: int| 0 <= j < i ==> !titles(x, id, #[trigger] keys[j]),
                    Some(b) => {
                        &&& b < i
                        &&& titles(x, id, keys[b as int])
                        &&& forall|j: int|
                            0 <= j < i && j != b && titles(x, id, #[trigger] keys[j])
                                ==> titles_before(x, keys[b as int], keys[j])
                    },
                },
            decreases keys.len() - i,
        {
            proof {
                table.lemma_view();
            }
            let row = table.row_at(i);
            if row.node_id.same(&id) && !row.title.as_str().is_empty() {
                let better = match best {
                    None => true,
                    Some(b) => title_place(row.source_kind.as_str()) < title_place(
                        table.row_at(b).source_kind.as_str(),
                    ),
                };
                proof {
                    assert(titles(x, id, keys[i as int]));
                    if best is Some {
                        let b = best->0 as int;
                        assert(String::before(keys[b], keys[i as int]));
                        if better {
                            assert forall|j: int|
                                0 <= j < i && titles(
                                    x,
                                    id,
                                    #[trigger] keys[j],
                                ) implies titles_before(x, keys[i as int], keys[j]) by {}
                        }
                    }
                }
                if better {
                    best = Some(i);
                }
            } else {
                proof {
                    assert(!titles(x, id, keys[i as int]));
                }
            }
            i = i + 1;
        }
        proof {
            table.lemma_view();
            if best is None {
                assert forall|key: Seq<char>| !titles(x, id, key) by {
                    if titles(x, id, key) {
                        assert(keys.contains(key));
                        let j = keys.index_of(key);
                        assert(keys[j] == key);
                    }
                }
            } else {
                let b = keys[best->0 as int];
                assert forall|other: Seq<char>| #[trigger]
                    titles(x, id, other) && other != b implies titles_before(x, b, other) by {
                    assert(keys.contains(other));
                    let j = keys.index_of(other);
                    assert(keys[j] == other);
                }
            }
        }
        best
    }

    /// The title of a Node.
    fn title(&self, id: NodeId) -> (r: String)
        requires
            self.wf(),
            self@.nodes.dom().contains(id),
        ensures
            r@ == title_of(self@, id),
    {
        if let Some(row) = self.nodes.get(&id) {
            if let Some(property) = row.properties.get(&"core.title".to_owned()) {
                match &property.value {
                    PropertyValue::Text(t) | PropertyValue::Date(t) | PropertyValue::DateTime(t) => {
                        if !t.as_str().is_empty() {
                            return t.clone();
                        }
                    },
                    _ => {},
                }
            }
        }
        match self.title_document(id) {
            Some(i) => {
                proof {
                    let a = self.documents.keys()[i as int];
                    let b = choose|key: Seq<char>| gives_title(self@, id, key);
                    lemma_title_unique(self@, id, a, b);
                    assert(titles(self@, id, a));
                }
                self.documents.row_at(i).title.clone()
            },
            None => hex(id.as_bytes().as_slice()),
        }
    }

    /// The canonical edges.
    fn edges(&self) -> (r: Table<Relationship, Present>)
        requires
            self.wf(),
        ensures
            r.wf(),
            r@.dom() == canonical_edges(self@),
    {
        let table = &self.relationships;
        let ghost x = self@;
        let mut r: Table<Relationship, Present> = Table::new();
        let mut i: usize = 0;
        while i < table.len()
            invariant
                self.wf(),
                table == &self.relationships,
                x == self@,
                r.wf(),
                i <= table.keys().len(),
                forall|k: RelationshipView| #[trigger]
                    r@.dom().contains(k) <==> is_edge(x, k) && table.keys().subrange(
                        0,
                        i as int,
                    ).contains(k),
            decreases table.keys().len() - i,
        {
            proof {
                table.lemma_view();
                lemma_next_is_new::<Relationship>(table.keys(), i as int);
            }
            let k = table.key_at(i);
            if self.is_active(&k.source) && self.is_active(&k.target) {
                r.insert(k.clone(), Present);
            }
            i = i + 1;
        }
        proof {
            table.lemma_view();
            assert(table.keys().subrange(0, i as int) =~= table.keys());
            assert(r@.dom() =~= canonical_edges(x));
        }
        r
    }

    /// Whether the row at a place is a derived edge.
    fn is_derived_edge_at(&self, i: usize) -> (r: bool)
        requires
            self.wf(),
            i < self.derived.keys().len(),
        ensures
            r == is_derived_edge(self@, self.derived.keys()[i as int]),
    {
        proof {
            self.derived.lemma_view();
        }
        self.is_active(&self.derived.key_at(i).source) && match &self.derived.row_at(i).target {
            Some(target) => self.is_active(target),
            None => true,
        }
    }

    /// The derived edges.
    fn content_edges(&self) -> (r: Table<DerivedKey, Present>)
        requires
            self.wf(),
        ensures
            r.wf(),
            r@.dom() == derived_edges(self@),
    {
        let table = &self.derived;
        let ghost x = self@;
        let mut r: Table<DerivedKey, Present> = Table::new();
        let mut i: usize = 0;
        while i < table.len()
            invariant
                self.wf(),
                table == &self.derived,
                x == self@,
                r.wf(),
                i <= table.keys().len(),
                forall|k: DerivedKeyView| #[trigger]
                    r@.dom().contains(k) <==> is_derived_edge(x, k) && table.keys().subrange(
                        0,
                        i as int,
                    ).contains(k),
            decreases table.keys().len() - i,
        {
            proof {
                table.lemma_view();
                lemma_next_is_new::<DerivedKey>(table.keys(), i as int);
            }
            if self.is_derived_edge_at(i) {
                r.insert(table.key_at(i).clone(), Present);
            }
            i = i + 1;
        }
        proof {
            table.lemma_view();
            assert(table.keys().subrange(0, i as int) =~= table.keys());
            assert(r@.dom() =~= derived_edges(x));
        }
        r
    }

    /// The derived edges at their places among the pages of edges.
    fn page_edges(&self) -> (r: Table<EdgeKey, Present>)
        requires
            self.wf(),
        ensures
            r.wf(),
            r@.dom() == edge_keys(self@),
    {
        let table = &self.derived;
        let ghost x = self@;
        let mut r: Table<EdgeKey, Present> = Table::new();
        let mut i: usize = 0;
        while i < table.len()
            invariant
                self.wf(),
                table == &self.derived,
                x == self@,
                r.wf(),
                i <= table.keys().len(),
                forall|e: EdgeKeyView| #[trigger]
                    r@.dom().contains(e) <==> edge_keys(x).contains(e) && table.keys().subrange(
                        0,
                        i as int,
                    ).contains(e.key),
            decreases table.keys().len() - i,
        {
            proof {
                table.lemma_view();
                lemma_next_is_new::<DerivedKey>(table.keys(), i as int);
            }
            if self.is_derived_edge_at(i) {
                let row = table.row_at(i);
                let edge = EdgeKey {
                    key: table.key_at(i).clone(),
                    target: row.target,
                    unresolved: unresolved_text(row),
                };
                r.insert(edge, Present);
            }
            i = i + 1;
        }
        proof {
            table.lemma_view();
            assert(table.keys().subrange(0, i as int) =~= table.keys());
            assert(r@.dom() =~= edge_keys(x));
        }
        r
    }

    /// The Nodes at the ends of the edges that lead to a Node.
    fn connected_ids(&self) -> (r: Table<NodeId, Present>)
        requires
            self.wf(),
        ensures
            r.wf(),
            forall|id: NodeId| #[trigger] r@.dom().contains(id) <==> connected(self@, id),
    {
        let ghost x = self@;
        let mut r: Table<NodeId, Present> = Table::new();
        let edges = self.edges();
        let ghost keys = edges.keys();
        let mut i: usize = 0;
        while i < edges.len()
            invariant
                edges.wf(),
                keys == edges.keys(),
                r.wf(),
                i <= keys.len(),
                forall|id: NodeId| #[trigger]
                    r@.dom().contains(id) <==> exists|j: int|
                        0 <= j < i && ((#[trigger] keys[j]).source == id || keys[j].target == id),
            decreases keys.len() - i,
        {
            let ghost before = r@.dom();
            let k = edges.key_at(i);
            r.insert(k.source, Present);
            r.insert(k.target, Present);
            proof {
                assert forall|id: NodeId| #[trigger]
                    r@.dom().contains(id) <==> exists|j: int|
                        0 <= j < i + 1 && ((#[trigger] keys[j]).source == id || keys[j].target
                            == id) by {
                    if before.contains(id) {
                        let j = choose|j: int|
                            0 <= j < i && ((#[trigger] keys[j]).source == id || keys[j].target
                                == id);
                        assert(keys[j].source == id || keys[j].target == id);
                    }
                    assert(keys[i as int] == k@);
                }
            }
            i = i + 1;
        }
        proof {
            edges.lemma_view();
            assert forall|id: NodeId| #[trigger]
                r@.dom().contains(id) <==> exists|e: RelationshipView| #[trigger]
                    is_edge(x, e) && (e.source == id || e.target == id) by {
                if r@.dom().contains(id) {
                    let j = choose|j: int|
                        0 <= j < i && ((#[trigger] keys[j]).source == id || keys[j].target == id);
                    assert(canonical_edges(x).contains(keys[j]));
                    assert(is_edge(x, keys[j]));
                }
                if exists|e: RelationshipView| #[trigger]
                    is_edge(x, e) && (e.source == id || e.target == id) {
                    let e = choose|e: RelationshipView| #[trigger]
                        is_edge(x, e) && (e.source == id || e.target == id);
                    assert(canonical_edges(x).contains(e));
                    assert(keys.contains(e));
                    let j = keys.index_of(e);
                    assert(keys[j] == e);
                }
            }
        }
        let ghost canonical = r@.dom();
        let table = &self.derived;
        let ghost places = table.keys();
        let mut n: usize = 0;
        while n < table.len()
            invariant
                self.wf(),
                table == &self.derived,
                x == self@,
                places == table.keys(),
                r.wf(),
                n <= places.len(),
                forall|id: NodeId| #[trigger]
                    r@.dom().contains(id) <==> canonical.contains(id) || exists|j: int|
                        0 <= j < n && is_derived_edge(x, #[trigger] places[j])
                            && x.derived[places[j]].target is Some && (places[j].source == id
                            || x.derived[places[j]].target == Some(id)),
            decreases places.len() - n,
        {
            let ghost before = r@.dom();
            proof {
                table.lemma_view();
            }
            if self.is_derived_edge_at(n) {
                if let Some(target) = table.row_at(n).target {
                    r.insert(table.key_at(n).source, Present);
                    r.insert(target, Present);
                }
            }
            proof {
                let p = places[n as int];
                assert forall|id: NodeId| #[trigger]
                    r@.dom().contains(id) <==> canonical.contains(id) || exists|j: int|
                        0 <= j < n + 1 && is_derived_edge(x, #[trigger] places[j])
                            && x.derived[places[j]].target is Some && (places[j].source == id
                            || x.derived[places[j]].target == Some(id)) by {
                    if before.contains(id) && !canonical.contains(id) {
                        let j = choose|j: int|
                            0 <= j < n && is_derived_edge(x, #[trigger] places[j])
                                && x.derived[places[j]].target is Some && (places[j].source == id
                                || x.derived[places[j]].target == Some(id));
                        assert(is_derived_edge(x, places[j]));
                    }
                    assert(places[n as int] == p);
                }
            }
            n = n + 1;
        }
        proof {
            table.lemma_view();
            assert forall|id: NodeId| #[trigger] r@.dom().contains(id) <==> connected(x, id) by {
                if r@.dom().contains(id) && !canonical.contains(id) {
                    let j = choose|j: int|
                        0 <= j < n && is_derived_edge(x, #[trigger] places[j])
                            && x.derived[places[j]].target is Some && (places[j].source == id
                            || x.derived[places[j]].target == Some(id));
                    assert(is_derived_edge(x, places[j]));
                }
                if exists|k: DerivedKeyView| #[trigger]
                    is_derived_edge(x, k) && x.derived[k].target is Some && (k.source == id
                        || x.derived[k].target == Some(id)) {
                    let k = choose|k: DerivedKeyView| #[trigger]
                        is_derived_edge(x, k) && x.derived[k].target is Some && (k.source == id
                            || x.derived[k].target == Some(id));
                    assert(places.contains(k));
                    let j = places.index_of(k);
                    assert(places[j] == k);
                }
            }
        }
        r
    }

    /// The Nodes at the ends of any Relationship at all.
    fn linked_ids(&self) -> (r: Table<NodeId, Present>)
        requires
            self.wf(),
        ensures
            r.wf(),
            forall|id: NodeId| #[trigger] r@.dom().contains(id) <==> linked(self@, id),
    {
        let ghost x = self@;
        let mut r: Table<NodeId, Present> = Table::new();
        let relationships = &self.relationships;
        let ghost keys = relationships.keys();
        let mut i: usize = 0;
        while i < relationships.len()
            invariant
                self.wf(),
                relationships == &self.relationships,
                keys == relationships.keys(),
                r.wf(),
                i <= keys.len(),
                forall|id: NodeId| #[trigger]
                    r@.dom().contains(id) <==> exists|j: int|
                        0 <= j < i && ((#[trigger] keys[j]).source == id || keys[j].target == id),
            decreases keys.len() - i,
        {
            let ghost before = r@.dom();
            let k = relationships.key_at(i);
            r.insert(k.source, Present);
            r.insert(k.target, Present);
            proof {
                assert forall|id: NodeId| #[trigger]
                    r@.dom().contains(id) <==> exists|j: int|
                        0 <= j < i + 1 && ((#[trigger] keys[j]).source == id || keys[j].target
                            == id) by {
                    if before.contains(id) {
                        let j = choose|j: int|
                            0 <= j < i && ((#[trigger] keys[j]).source == id || keys[j].target
                                == id);
                        assert(keys[j].source == id || keys[j].target == id);
                    }
                    assert(keys[i as int] == k@);
                }
            }
            i = i + 1;
        }
        proof {
            relationships.lemma_view();
            assert forall|id: NodeId| #[trigger]
                r@.dom().contains(id) <==> exists|e: RelationshipView| #[trigger]
                    x.relationships.dom().contains(e) && (e.source == id || e.target == id) by {
                if r@.dom().contains(id) {
                    let j = choose|j: int|
                        0 <= j < i && ((#[trigger] keys[j]).source == id || keys[j].target == id);
                    assert(x.relationships.dom().contains(keys[j]));
                }
                if exists|e: RelationshipView| #[trigger]
                    x.relationships.dom().contains(e) && (e.source == id || e.target == id) {
                    let e = choose|e: RelationshipView| #[trigger]
                        x.relationships.dom().contains(e) && (e.source == id || e.target == id);
                    assert(keys.contains(e));
                    let j = keys.index_of(e);
                    assert(keys[j] == e);
                }
            }
        }
        let ghost canonical = r@.dom();
        let table = &self.derived;
        let ghost places = table.keys();
        let mut n: usize = 0;
        while n < table.len()
            invariant
                self.wf(),
                table == &self.derived,
                x == self@,
                places == table.keys(),
                r.wf(),
                n <= places.len(),
                forall|id: NodeId| #[trigger]
                    r@.dom().contains(id) <==> canonical.contains(id) || exists|j: int|
                        0 <= j < n && ((#[trigger] places[j]).source == id
                            || x.derived[places[j]].target == Some(id)),
            decreases places.len() - n,
        {
            let ghost before = r@.dom();
            proof {
                table.lemma_view();
            }
            r.insert(table.key_at(n).source, Present);
            if let Some(target) = table.row_at(n).target {
                r.insert(target, Present);
            }
            proof {
                let p = places[n as int];
                assert forall|id: NodeId| #[trigger]
                    r@.dom().contains(id) <==> canonical.contains(id) || exists|j: int|
                        0 <= j < n + 1 && ((#[trigger] places[j]).source == id
                            || x.derived[places[j]].target == Some(id)) by {
                    if before.contains(id) && !canonical.contains(id) {
                        let j = choose|j: int|
                            0 <= j < n && ((#[trigger] places[j]).source == id
                                || x.derived[places[j]].target == Some(id));
                        assert(places[j].source == id || x.derived[places[j]].target == Some(id));
                    }
                    assert(places[n as int] == p);
                }
            }
            n = n + 1;
        }
        proof {
            table.lemma_view();
            assert forall|id: NodeId| #[trigger] r@.dom().contains(id) <==> linked(x, id) by {
                if r@.dom().contains(id) && !canonical.contains(id) {
                    let j = choose|j: int|
                        0 <= j < n && ((#[trigger] places[j]).source == id
                            || x.derived[places[j]].target == Some(id));
                    assert(x.derived.dom().contains(places[j]));
                }
                if exists|k: DerivedKeyView| #[trigger]
                    x.derived.dom().contains(k) && (k.source == id || x.derived[k].target == Some(
                        id,
                    )) {
                    let k = choose|k: DerivedKeyView| #[trigger]
                        x.derived.dom().contains(k) && (k.source == id || x.derived[k].target
                            == Some(id));
                    assert(places.contains(k));
                    let j = places.index_of(k);
                    assert(places[j] == k);
                }
            }
        }
        r
    }

    /// The active Nodes that are not among these.
    fn active_without(&self, excluded: &Table<NodeId, Present>) -> (r: Table<NodeId, Present>)
        requires
            self.wf(),
            excluded.wf(),
        ensures
            r.wf(),
            r@.dom() == Set::new(|id: NodeId| self@.active(id) && !excluded@.dom().contains(id)),
    {
        let table = &self.nodes;
        let ghost x = self@;
        let mut r: Table<NodeId, Present> = Table::new();
        let mut i: usize = 0;
        while i < table.len()
            invariant
                self.wf(),
                excluded.wf(),
                table == &self.nodes,
                x == self@,
                r.wf(),
                i <= table.keys().len(),
                forall|id: NodeId| #[trigger]
                    r@.dom().contains(id) <==> x.active(id) && !excluded@.dom().contains(id)
                        && table.keys().subrange(0, i as int).contains(id),
            decreases table.keys().len() - i,
        {
            proof {
                table.lemma_view();
                lemma_next_is_new::<NodeId>(table.keys(), i as int);
            }
            let id = *table.key_at(i);
            if table.row_at(i).lifecycle_state == LifecycleState::Active && !excluded.contains(
                &id,
            ) {
                r.insert(id, Present);
            }
            i = i + 1;
        }
        proof {
            table.lemma_view();
            assert(table.keys().subrange(0, i as int) =~= table.keys());
            assert(r@.dom() =~= Set::new(
                |id: NodeId| self@.active(id) && !excluded@.dom().contains(id),
            ));
        }
        r
    }

    /// The Nodes of the graph from one place of their order to another; those that are not among
    /// `bound` are orphans.
    fn graph_nodes_between(
        &self,
        ids: &Table<NodeId, Present>,
        bound: &Table<NodeId, Present>,
        from: usize,
        to: usize,
    ) -> (r: Vec<GraphNode>)
        requires
            self.wf(),
            ids.wf(),
            bound.wf(),
            ids@.dom() == active_ids(self@),
            from <= to <= ids.keys().len(),
        ensures
            r@.len() == to - from,
            forall|j: int|
                0 <= j < r@.len() ==> (#[trigger] r@[j])@ == (GraphNodeView {
                    node_id: ids.keys()[from + j],
                    title: title_of(self@, ids.keys()[from + j]),
                    is_orphan: !bound@.dom().contains(ids.keys()[from + j]),
                }),
    {
        let mut r: Vec<GraphNode> = Vec::new();
        let mut i: usize = from;
        while i < to
            invariant
                self.wf(),
                ids.wf(),
                bound.wf(),
                ids@.dom() == active_ids(self@),
                from <= i <= to <= ids.keys().len(),
                r@.len() == i - from,
                forall|j: int|
                    0 <= j < r@.len() ==> (#[trigger] r@[j])@ == (GraphNodeView {
                        node_id: ids.keys()[from + j],
                        title: title_of(self@, ids.keys()[from + j]),
                        is_orphan: !bound@.dom().contains(ids.keys()[from + j]),
                    }),
            decreases to - i,
        {
            let id = *ids.key_at(i);
            proof {
                assert(active_ids(self@).contains(id));
            }
            let title = self.title(id);
            r.push(GraphNode { node_id: id, title, is_orphan: !bound.contains(&id) });
            i = i + 1;
        }
        r
    }

    /// A derived Relationship as an edge.
    fn show_derived(&self, key: &DerivedKey) -> (r: GraphEdge)
        requires
            self.wf(),
            self@.derived.dom().contains(key@),
        ensures
            r@ == derived_edge(self@, key@),
    {
        let (target, unresolved_target) = match self.derived.get(key) {
            Some(row) => (row.target, unresolved_text(row)),
            None => (None, None),
        };
        GraphEdge {
            source: key.source,
            relationship_key: key.relationship_key.clone(),
            target,
            unresolved_target,
            provenance: RelationshipProvenance::ContentDerived,
        }
    }

    /// The graph: the active Nodes in the order of their IDs, and the edges between them.
    pub fn graph(&self) -> (r: GraphProjection)
        requires
            self.wf(),
        ensures
            graph_nodes_view(r.nodes@) == graph_node_list(self@),
            edges_view(r.edges@) == graph_edge_list(self@),
    {
        let none: Table<NodeId, Present> = Table::new();
        let ids = self.active_without(&none);
        proof {
            ids.lemma_view();
            assert(ids@.dom() =~= active_ids(self@));
        }
        let bound = self.connected_ids();
        let nodes = self.graph_nodes_between(&ids, &bound, 0, ids.len());
        proof {
            assert(graph_nodes_view(nodes@) =~= graph_node_list(self@));
        }
        let canonical = self.edges();
        let derived = self.content_edges();
        proof {
            canonical.lemma_view();
            derived.lemma_view();
        }
        let mut edges: Vec<GraphEdge> = Vec::new();
        let mut i: usize = 0;
        while i < canonical.len()
            invariant
                canonical.wf(),
                i <= canonical.keys().len(),
                edges@.len() == i,
                forall|j: int|
                    0 <= j < i ==> (#[trigger] edges@[j])@ == canonical_edge(canonical.keys()[j]),
            decreases canonical.keys().len() - i,
        {
            edges.push(show_canonical(canonical.key_at(i)));
            i = i + 1;
        }
        let ghost first = canonical.keys().len();
        let mut n: usize = 0;
        while n < derived.len()
            invariant
                self.wf(),
                canonical.wf(),
                derived.wf(),
                derived@.dom() == derived_edges(self@),
                first == canonical.keys().len(),
                n <= derived.keys().len(),
                edges@.len() == first + n,
                forall|j: int|
                    0 <= j < first ==> (#[trigger] edges@[j])@ == canonical_edge(
                        canonical.keys()[j],
                    ),
                forall|j: int|
                    first <= j < first + n ==> (#[trigger] edges@[j])@ == derived_edge(
                        self@,
                        derived.keys()[j - first],
                    ),
            decreases derived.keys().len() - n,
        {
            let key = derived.key_at(n);
            proof {
                assert(derived_edges(self@).contains(key@));
            }
            edges.push(self.show_derived(key));
            n = n + 1;
        }
        proof {
            canonical.lemma_view();
            derived.lemma_view();
            assert(edges_view(edges@) =~= graph_edge_list(self@));
        }
        GraphProjection { nodes, edges }
    }

    /// A window of the Nodes of the graph, by title and ID.
    pub fn graph_nodes_page(&self, page: ReadPage) -> (r: Result<Vec<GraphNode>, CoreError>)
        requires
            self.wf(),
        ensures
            match r {
                Ok(nodes) => page_fault(page) is None && graph_nodes_view(nodes@) == page_of(
                    node_page_list(self@),
                    page,
                ),
                Err(e) => page_fault(page) == Some(e@),
            },
    {
        match page.sql_offset() {
            Err(e) => return Err(e),
            Ok(_) => {},
        }
        let by_title = self.titled_nodes();
        let bound = self.linked_ids();
        proof {
            by_title.lemma_view();
        }
        let (from, to) = window_bounds(page.offset, page.sql_limit() as usize, by_title.len());
        let mut nodes: Vec<GraphNode> = Vec::new();
        let mut i: usize = from;
        while i < to
            invariant
                self.wf(),
                by_title.wf(),
                bound.wf(),
                by_title@.dom() == title_keys(self@),
                forall|id: NodeId| #[trigger] bound@.dom().contains(id) <==> linked(self@, id),
                from <= i <= to <= by_title.keys().len(),
                nodes@.len() == i - from,
                forall|j: int|
                    0 <= j < nodes@.len() ==> (#[trigger] nodes@[j])@ == (GraphNodeView {
                        node_id: by_title.keys()[from + j].id,
                        title: title_of(self@, by_title.keys()[from + j].id),
                        is_orphan: !linked(self@, by_title.keys()[from + j].id),
                    }),
            decreases to - i,
        {
            let key = by_title.key_at(i);
            proof {
                assert(title_keys(self@).contains(key@));
            }
            let title = self.title(key.id);
            nodes.push(GraphNode { node_id: key.id, title, is_orphan: !bound.contains(&key.id) });
            i = i + 1;
        }
        proof {
            assert(graph_nodes_view(nodes@) =~= node_page_list(self@).subrange(
                from as int,
                to as int,
            ));
        }
        Ok(nodes)
    }

    /// The active Nodes at their places among the pages of Nodes.
    fn titled_nodes(&self) -> (r: Table<TitleKey, Present>)
        requires
            self.wf(),
        ensures
            r.wf(),
            r@.dom() == title_keys(self@),
    {
        let table = &self.nodes;
        let ghost x = self@;
        let mut r: Table<TitleKey, Present> = Table::new();
        let mut i: usize = 0;
        while i < table.len()
            invariant
                self.wf(),
                table == &self.nodes,
                x == self@,
                r.wf(),
                i <= table.keys().len(),
                forall|k: TitleKeyView| #[trigger]
                    r@.dom().contains(k) <==> title_keys(x).contains(k) && table.keys().subrange(
                        0,
                        i as int,
                    ).contains(k.id),
            decreases table.keys().len() - i,
        {
            proof {
                table.lemma_view();
                lemma_next_is_new::<NodeId>(table.keys(), i as int);
            }
            let id = *table.key_at(i);
            if table.row_at(i).lifecycle_state == LifecycleState::Active {
                let title = self.title(id);
                r.insert(TitleKey { folded: fold_case(title.as_str()), id }, Present);
            }
            i = i + 1;
        }
        proof {
            table.lemma_view();
            assert(table.keys().subrange(0, i as int) =~= table.keys());
            assert(r@.dom() =~= title_keys(x));
        }
        r
    }

    /// A window of the edges of the graph.
    pub fn graph_edges_page(&self, page: ReadPage) -> (r: Result<Vec<GraphEdge>, CoreError>)
        requires
            self.wf(),
        ensures
            match r {
                Ok(edges) => page_fault(page) is None && edges_view(edges@) == page_of(
                    edge_page_list(self@),
                    page,
                ),
                Err(e) => page_fault(page) == Some(e@),
            },
    {
        match page.sql_offset() {
            Err(e) => return Err(e),
            Ok(_) => {},
        }
        let canonical = self.edges();
        let derived = self.page_edges();
        proof {
            canonical.lemma_view();
            derived.lemma_view();
        }
        let limit: usize = page.sql_limit() as usize;
        let first: usize = canonical.len();
        let (from, to) = window_bounds(page.offset, limit, first);
        let past: u64 = if page.offset > first as u64 {
            page.offset - first as u64
        } else {
            0
        };
        let (begin, end) = window_bounds(past, limit - (to - from), derived.len());
        let mut edges: Vec<GraphEdge> = Vec::new();
        let mut i: usize = from;
        while i < to
            invariant
                canonical.wf(),
                from <= i <= to <= canonical.keys().len(),
                edges@.len() == i - from,
                forall|j: int|
                    0 <= j < edges@.len() ==> (#[trigger] edges@[j])@ == canonical_edge(
                        canonical.keys()[from + j],
                    ),
            decreases to - i,
        {
            edges.push(show_canonical(canonical.key_at(i)));
            i = i + 1;
        }
        let mut n: usize = begin;
        while n < end
            invariant
                self.wf(),
                derived.wf(),
                derived@.dom() == edge_keys(self@),
                from <= to <= canonical.keys().len(),
                begin <= n <= end <= derived.keys().len(),
                edges@.len() == (to - from) + (n - begin),
                forall|j: int|
                    0 <= j < to - from ==> (#[trigger] edges@[j])@ == canonical_edge(
                        canonical.keys()[from + j],
                    ),
                forall|j: int|
                    to - from <= j < edges@.len() ==> (#[trigger] edges@[j])@ == derived_edge(
                        self@,
                        derived.keys()[begin + (j - (to - from))].key,
                    ),
            decreases end - n,
        {
            let key = derived.key_at(n);
            proof {
                assert(edge_keys(self@).contains(key@));
            }
            edges.push(self.show_derived(&key.key));
            n = n + 1;
        }
        proof {
            let list = edge_page_list(self@);
            assert(edges_view(edges@) =~= page_of(list, page));
        }
        Ok(edges)
    }

    /// The active Nodes without an edge to another Node, in the order of their IDs.
    pub fn orphan_node_ids(&self) -> (r: Vec<NodeId>)
        requires
            self.wf(),
        ensures
            r@ == in_order::<NodeId>(orphans(self@)),
    {
        let bound = self.connected_ids();
        let ids = self.active_without(&bound);
        proof {
            ids.lemma_view();
            assert(ids@.dom() =~= orphans(self@));
            assert(ids.keys().subrange(0, ids.keys().len() as int) =~= ids.keys());
        }
        ids_between(&ids, 0, ids.len())
    }

    /// How many active Nodes have no Relationship at all.
    pub fn orphan_node_count(&self) -> (r: u64)
        requires
            self.wf(),
        ensures
            r == loose_ids(self@).len(),
    {
        let bound = self.linked_ids();
        let ids = self.active_without(&bound);
        proof {
            ids.lemma_view();
            assert(ids@.dom() =~= loose_ids(self@));
        }
        ids.len() as u64
    }

    /// The first of the active Nodes without a Relationship.
    pub fn orphan_node_ids_limited(&self, limit: usize) -> (r: Result<Vec<NodeId>, CoreError>)
        requires
            self.wf(),
        ensures
            r is Ok && r->Ok_0@ == page_of(
                in_order::<NodeId>(loose_ids(self@)),
                ReadPage { offset: 0, limit },
            ),
    {
        self.orphan_node_ids_page(ReadPage::new(0, limit))
    }

    /// A window of the active Nodes without a Relationship, in the order of their IDs.
    pub fn orphan_node_ids_page(&self, page: ReadPage) -> (r: Result<Vec<NodeId>, CoreError>)
        requires
            self.wf(),
        ensures
            match r {
                Ok(ids) => page_fault(page) is None && ids@ == page_of(
                    in_order::<NodeId>(loose_ids(self@)),
                    page,
                ),
                Err(e) => page_fault(page) == Some(e@),
            },
    {
        match page.sql_offset() {
            Err(e) => return Err(e),
            Ok(_) => {},
        }
        let bound = self.linked_ids();
        let ids = self.active_without(&bound);
        proof {
            ids.lemma_view();
            assert(ids@.dom() =~= loose_ids(self@));
        }
        let (from, to) = window_bounds(page.offset, page.sql_limit() as usize, ids.len());
        Ok(ids_between(&ids, from, to))
    }
}

/// What a derived Relationship leads to where it leads to no Node.
fn unresolved_text(row: &DerivedRow) -> (r: Option<String>)
    ensures
        optional_text(r) == unresolved(row@),
{
    if row.target.is_none() {
        Some(row.target_text.clone())
    } else {
        None
    }
}

/// A canonical Relationship as an edge.
fn show_canonical(r: &Relationship) -> (edge: GraphEdge)
    ensures
        edge@ == canonical_edge(r@),
{
    GraphEdge {
        source: r.source,
        relationship_key: r.key.clone(),
        target: Some(r.target),
        unresolved_target: None,
        provenance: RelationshipProvenance::CanonicalRecord,
    }
}

/// The IDs from one place of their order to another.
fn ids_between(ids: &Table<NodeId, Present>, from: usize, to: usize) -> (r: Vec<NodeId>)
    requires
        ids.wf(),
        from <= to <= ids.keys().len(),
    ensures
        r@ == ids.keys().subrange(from as int, to as int),
{
    let mut r: Vec<NodeId> = Vec::new();
    let mut i: usize = from;
    while i < to
        invariant
            ids.wf(),
            from <= i <= to <= ids.keys().len(),
            r@ == ids.keys().subrange(from as int, i as int),
        decreases to - i,
    {
        r.push(*ids.key_at(i));
        i = i + 1;
        proof {
            assert(r@ =~= ids.keys().subrange(from as int, i as int));
        }
    }
    r
}

} // verus!
