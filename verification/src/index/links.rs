//! Backlinks: the Relationships that lead to a Node.
use vstd::prelude::*;
use crate::api::{
    clone_optional_text, optional_text, page_fault, page_of, window_bounds, IndexedRelationship,
    ReadPage, Relationship, RelationshipProvenance, RelationshipView,
};
use crate::error::CoreError;
use crate::id::NodeId;
use crate::index::model::{
    lemma_spot_irreflexive, lemma_spot_total, lemma_spot_transitive, spot_before, DerivedKey,
    DerivedKeyView, IndexModel, IndexStore,
};
use crate::node::LifecycleState;
use crate::record_store::model::Present;
use crate::table::{in_order, lemma_next_is_new, Table, TableKey};
use crate::text::{
    lemma_text_before_irreflexive, lemma_text_before_total, lemma_text_before_transitive,
    same_text, str_before, text_before,
};

verus! {

/// A Relationship as the Index shows it, its texts taken as sequences of characters.
pub struct IndexedRelationshipView {
    pub source: NodeId,
    pub relationship_key: Seq<char>,
    pub target: Option<NodeId>,
    pub unresolved_target: Option<Seq<char>>,
    pub provenance: RelationshipProvenance,
    pub inverse_label: Option<Seq<char>>,
    pub source_kind: Option<Seq<char>>,
    pub source_locator: Option<Seq<char>>,
    pub parser: Option<Seq<char>>,
    pub start_offset: Option<usize>,
    pub end_offset: Option<usize>,
}

impl View for IndexedRelationship {
    type V = IndexedRelationshipView;

    open spec fn view(&self) -> IndexedRelationshipView {
        IndexedRelationshipView {
            source: self.source,
            relationship_key: self.relationship_key@,
            target: self.target,
            unresolved_target: optional_text(self.unresolved_target),
            provenance: self.provenance,
            inverse_label: optional_text(self.inverse_label),
            source_kind: optional_text(self.source_kind),
            source_locator: optional_text(self.source_locator),
            parser: optional_text(self.parser),
            start_offset: self.start_offset,
            end_offset: self.end_offset,
        }
    }
}

/// The views of a run of Relationships.
pub open spec fn links_view(items: Seq<IndexedRelationship>) -> Seq<IndexedRelationshipView> {
    Seq::new(items.len(), |i: int| items[i]@)
}

/// A link to a given Node: a canonical Relationship, or one found in content.
pub enum LinkKey {
    Canonical { relationship_key: String, source: NodeId },
    Derived(DerivedKey),
}

pub enum LinkView {
    Canonical { relationship_key: Seq<char>, source: NodeId },
    Derived(DerivedKeyView),
}

impl View for LinkKey {
    type V = LinkView;

    open spec fn view(&self) -> LinkView {
        match *self {
            LinkKey::Canonical { relationship_key, source } => LinkView::Canonical {
                relationship_key: relationship_key@,
                source,
            },
            LinkKey::Derived(key) => LinkView::Derived(key@),
        }
    }
}

/// The Relationship key of a link.
pub open spec fn link_key(l: LinkView) -> Seq<char> {
    match l {
        LinkView::Canonical { relationship_key, .. } => relationship_key,
        LinkView::Derived(key) => key.relationship_key,
    }
}

/// The Node that a link comes from.
pub open spec fn link_source(l: LinkView) -> NodeId {
    match l {
        LinkView::Canonical { source, .. } => source,
        LinkView::Derived(key) => key.source,
    }
}

/// The order of two links with the same key and source: the canonical one first, those found in
/// content by their place.
pub open spec fn same_end_before(a: LinkView, b: LinkView) -> bool {
    match (a, b) {
        (LinkView::Canonical { .. }, LinkView::Derived(_)) => true,
        (LinkView::Derived(p), LinkView::Derived(q)) => spot_before(p, q),
        _ => false,
    }
}

impl LinkKey {
    fn key(&self) -> (r: &str)
        ensures
            r@ == link_key(self@),
    {
        match self {
            LinkKey::Canonical { relationship_key, .. } => relationship_key.as_str(),
            LinkKey::Derived(key) => key.relationship_key.as_str(),
        }
    }

    fn from_node(&self) -> (r: NodeId)
        ensures
            r == link_source(self@),
    {
        match self {
            LinkKey::Canonical { source, .. } => *source,
            LinkKey::Derived(key) => key.source,
        }
    }
}

/// Links stand by key, then source, then provenance, then place.
impl TableKey for LinkKey {
    open spec fn before(a: LinkView, b: LinkView) -> bool {
        if link_key(a) != link_key(b) {
            text_before(link_key(a), link_key(b))
        } else if link_source(a) != link_source(b) {
            NodeId::before(link_source(a), link_source(b))
        } else {
            same_end_before(a, b)
        }
    }

    proof fn before_irreflexive(a: LinkView) {
        match a {
            LinkView::Derived(p) => lemma_spot_irreflexive(p),
            _ => {},
        }
    }

    proof fn before_transitive(a: LinkView, b: LinkView, c: LinkView) {
        if link_key(a) == link_key(b) && link_key(b) == link_key(c) {
            if link_source(a) == link_source(b) && link_source(b) == link_source(c) {
                match (a, b, c) {
                    (LinkView::Derived(p), LinkView::Derived(q), LinkView::Derived(r)) =>
                        lemma_spot_transitive(p, q, r),
                    _ => {},
                }
            } else if link_source(a) != link_source(b) && link_source(b) != link_source(c) {
                NodeId::before_transitive(link_source(a), link_source(b), link_source(c));
                NodeId::before_irreflexive(link_source(a));
            }
        } else if link_key(a) != link_key(b) && link_key(b) != link_key(c) {
            lemma_text_before_transitive(link_key(a), link_key(b), link_key(c));
            lemma_text_before_irreflexive(link_key(a));
        }
    }

    proof fn before_total(a: LinkView, b: LinkView) {
        lemma_text_before_total(link_key(a), link_key(b));
        NodeId::before_total(link_source(a), link_source(b));
        match (a, b) {
            (LinkView::Derived(p), LinkView::Derived(q)) => lemma_spot_total(p, q),
            _ => {},
        }
    }

    fn is_before(&self, other: &LinkKey) -> (r: bool) {
        if !same_text(self.key(), other.key()) {
            str_before(self.key(), other.key())
        } else if !self.from_node().same(&other.from_node()) {
            self.from_node().is_before(&other.from_node())
        } else {
            match (self, other) {
                (LinkKey::Canonical { .. }, LinkKey::Derived(_)) => true,
                (LinkKey::Derived(p), LinkKey::Derived(q)) => p.spot_is_before(q),
                _ => false,
            }
        }
    }

    fn copy_key(&self) -> (r: LinkKey) {
        match self {
            LinkKey::Canonical { relationship_key, source } => LinkKey::Canonical {
                relationship_key: relationship_key.clone(),
                source: *source,
            },
            LinkKey::Derived(key) => LinkKey::Derived(key.clone()),
        }
    }
}

/// Whether a link leads from an active Node to this Node.
pub open spec fn links_to(x: IndexModel, id: NodeId, l: LinkView) -> bool {
    &&& x.active(link_source(l))
    &&& match l {
        LinkView::Canonical { relationship_key, source } => x.relationships.dom().contains(
            RelationshipView { source, key: relationship_key, target: id },
        ),
        LinkView::Derived(key) => x.derived.dom().contains(key) && x.derived[key].target == Some(
            id,
        ),
    }
}

/// The canonical links to a Node.
pub open spec fn canonical_links(x: IndexModel, id: NodeId) -> Set<LinkView> {
    Set::new(|l: LinkView| l is Canonical && links_to(x, id, l))
}

/// The links to a Node that were found in content.
pub open spec fn derived_links(x: IndexModel, id: NodeId) -> Set<LinkView> {
    Set::new(|l: LinkView| l is Derived && links_to(x, id, l))
}

/// All links to a Node.
pub open spec fn all_links(x: IndexModel, id: NodeId) -> Set<LinkView> {
    Set::new(|l: LinkView| links_to(x, id, l))
}

/// The label that a Relationship key has when read from its target.
pub open spec fn inverse_label(x: IndexModel, key: Seq<char>) -> Option<Seq<char>> {
    if x.relationship_definitions.dom().contains(key) {
        x.relationship_definitions[key].definition.inverse_label
    } else {
        None
    }
}

/// A link to a Node as the Index shows it.
pub open spec fn link_shown(x: IndexModel, id: NodeId, l: LinkView) -> IndexedRelationshipView {
    match l {
        LinkView::Canonical { relationship_key, source } => IndexedRelationshipView {
            source,
            relationship_key,
            target: Some(id),
            unresolved_target: None,
            provenance: RelationshipProvenance::CanonicalRecord,
            inverse_label: inverse_label(x, relationship_key),
            source_kind: None,
            source_locator: None,
            parser: None,
            start_offset: None,
            end_offset: None,
        },
        LinkView::Derived(key) => IndexedRelationshipView {
            source: key.source,
            relationship_key: key.relationship_key,
            target: Some(id),
            unresolved_target: None,
            provenance: RelationshipProvenance::ContentDerived,
            inverse_label: Some("linked from"@),
            source_kind: Some(key.source_kind),
            source_locator: x.derived[key].source_locator,
            parser: Some(key.parser),
            start_offset: Some(key.start_offset),
            end_offset: Some(key.end_offset),
        },
    }
}

/// Links to a Node as the Index shows them.
pub open spec fn links_shown(x: IndexModel, id: NodeId, links: Seq<LinkView>) -> Seq<
    IndexedRelationshipView,
> {
    Seq::new(links.len(), |i: int| link_shown(x, id, links[i]))
}

/// The backlinks of a Node: the canonical ones, then those found in content, each by key, then
/// source, then place.
pub open spec fn backlink_list(x: IndexModel, id: NodeId) -> Seq<IndexedRelationshipView> {
    links_shown(x, id, in_order::<LinkKey>(canonical_links(x, id))) + links_shown(
        x,
        id,
        in_order::<LinkKey>(derived_links(x, id)),
    )
}

impl IndexStore {
    /// Whether a Node is there and active.
    pub(crate) fn is_active(&self, id: &NodeId) -> (r: bool)
        requires
            self.wf(),
        ensures
            r == self@.active(*id),
    {
        match self.nodes.get(id) {
            Some(row) => row.lifecycle_state == LifecycleState::Active,
            None => false,
        }
    }

    /// Adds the canonical links to a Node.
    fn add_canonical_links(&self, id: NodeId, links: &mut Table<LinkKey, Present>)
        requires
            self.wf(),
            old(links).wf(),
        ensures
            final(links).wf(),
            final(links)@.dom() == old(links)@.dom().union(canonical_links(self@, id)),
    {
        let table = &self.relationships;
        let ghost before = links@.dom();
        let ghost x = self@;
        let mut i: usize = 0;
        while i < table.len()
            invariant
                self.wf(),
                table == &self.relationships,
                x == self@,
                links.wf(),
                i <= table.keys().len(),
                forall|l: LinkView| #[trigger]
                    links@.dom().contains(l) <==> before.contains(l) || (canonical_links(
                        x,
                        id,
                    ).contains(l) && table.keys().subrange(0, i as int).contains(
                        RelationshipView { source: link_source(l), key: link_key(l), target: id },
                    )),
            decreases table.keys().len() - i,
        {
            proof {
                table.lemma_view();
                lemma_next_is_new::<Relationship>(table.keys(), i as int);
            }
            let r = table.key_at(i);
            if r.target.same(&id) && self.is_active(&r.source) {
                links.insert(
                    LinkKey::Canonical { relationship_key: r.key.clone(), source: r.source },
                    Present,
                );
            }
            i = i + 1;
        }
        proof {
            table.lemma_view();
            assert(table.keys().subrange(0, i as int) =~= table.keys());
            assert(links@.dom() =~= before.union(canonical_links(x, id)));
        }
    }

    /// Adds the links to a Node that were found in content.
    fn add_derived_links(&self, id: NodeId, links: &mut Table<LinkKey, Present>)
        requires
            self.wf(),
            old(links).wf(),
        ensures
            final(links).wf(),
            final(links)@.dom() == old(links)@.dom().union(derived_links(self@, id)),
    {
        let table = &self.derived;
        let ghost before = links@.dom();
        let ghost x = self@;
        let mut i: usize = 0;
        while i < table.len()
            invariant
                self.wf(),
                table == &self.derived,
                x == self@,
                links.wf(),
                i <= table.keys().len(),
                forall|l: LinkView| #[trigger]
                    links@.dom().contains(l) <==> before.contains(l) || (derived_links(
                        x,
                        id,
                    ).contains(l) && table.keys().subrange(0, i as int).contains(l->Derived_0)),
            decreases table.keys().len() - i,
        {
            proof {
                table.lemma_view();
                lemma_next_is_new::<DerivedKey>(table.keys(), i as int);
            }
            let key = table.key_at(i);
            let leads = match &table.row_at(i).target {
                Some(target) => target.same(&id),
                None => false,
            };
            if leads && self.is_active(&key.source) {
                links.insert(LinkKey::Derived(key.clone()), Present);
            }
            i = i + 1;
        }
        proof {
            table.lemma_view();
            assert(table.keys().subrange(0, i as int) =~= table.keys());
            assert(links@.dom() =~= before.union(derived_links(x, id)));
        }
    }

    /// A link to a Node as the Index shows it.
    fn show_link(&self, id: NodeId, link: &LinkKey) -> (r: IndexedRelationship)
        requires
            self.wf(),
            links_to(self@, id, link@),
        ensures
            r@ == link_shown(self@, id, link@),
    {
        match link {
            LinkKey::Canonical { relationship_key, source } => {
                let inverse_label = match self.relationship_definitions.get(relationship_key) {
                    Some(row) => clone_optional_text(&row.definition.inverse_label),
                    None => None,
                };
                IndexedRelationship {
                    source: *source,
                    relationship_key: relationship_key.clone(),
                    target: Some(id),
                    unresolved_target: None,
                    provenance: RelationshipProvenance::CanonicalRecord,
                    inverse_label,
                    source_kind: None,
                    source_locator: None,
                    parser: None,
                    start_offset: None,
                    end_offset: None,
                }
            },
            LinkKey::Derived(key) => {
                let source_locator = match self.derived.get(key) {
                    Some(row) => clone_optional_text(&row.source_locator),
                    None => None,
                };
                IndexedRelationship {
                    source: key.source,
                    relationship_key: key.relationship_key.clone(),
                    target: Some(id),
                    unresolved_target: None,
                    provenance: RelationshipProvenance::ContentDerived,
                    inverse_label: Some("linked from".to_owned()),
                    source_kind: Some(key.source_kind.clone()),
                    source_locator,
                    parser: Some(key.parser.clone()),
                    start_offset: Some(key.start_offset),
                    end_offset: Some(key.end_offset),
                }
            },
        }
    }

    /// Adds the links from one place of a listing to another.
    fn show_links(
        &self,
        id: NodeId,
        links: &Table<LinkKey, Present>,
        from: usize,
        to: usize,
        shown: &mut Vec<IndexedRelationship>,
    )
        requires
            self.wf(),
            links.wf(),
            from <= to <= links.keys().len(),
            forall|l: LinkView| #[trigger]
                links@.dom().contains(l) ==> links_to(self@, id, l),
        ensures
            links_view(final(shown)@) == links_view(old(shown)@) + links_shown(
                self@,
                id,
                links.keys().subrange(from as int, to as int),
            ),
    {
        let ghost before = links_view(shown@);
        let mut i: usize = from;
        proof {
            assert(links_view(shown@) =~= before + links_shown(
                self@,
                id,
                links.keys().subrange(from as int, from as int),
            ));
        }
        while i < to
            invariant
                self.wf(),
                links.wf(),
                from <= i <= to <= links.keys().len(),
                forall|l: LinkView| #[trigger]
                    links@.dom().contains(l) ==> links_to(self@, id, l),
                links_view(shown@) == before + links_shown(
                    self@,
                    id,
                    links.keys().subrange(from as int, i as int),
                ),
            decreases to - i,
        {
            let ghost was = shown@;
            let link = self.show_link(id, links.key_at(i));
            shown.push(link);
            proof {
                assert(links_view(shown@) =~= links_view(was).push(link@));
                assert(links_shown(self@, id, links.keys().subrange(from as int, i + 1))
                    =~= links_shown(self@, id, links.keys().subrange(from as int, i as int)).push(
                    link@,
                ));
                assert(links_view(shown@) =~= before + links_shown(
                    self@,
                    id,
                    links.keys().subrange(from as int, i + 1),
                ));
            }
            i = i + 1;
        }
    }

    /// The backlinks of a Node.
    pub fn backlinks(&self, node_id: NodeId) -> (r: Vec<IndexedRelationship>)
        requires
            self.wf(),
        ensures
            links_view(r@) == backlink_list(self@, node_id),
    {
        let mut canonical: Table<LinkKey, Present> = Table::new();
        self.add_canonical_links(node_id, &mut canonical);
        let mut derived: Table<LinkKey, Present> = Table::new();
        self.add_derived_links(node_id, &mut derived);
        proof {
            canonical.lemma_view();
            derived.lemma_view();
            assert(canonical@.dom() =~= canonical_links(self@, node_id));
            assert(derived@.dom() =~= derived_links(self@, node_id));
            assert(canonical.keys().subrange(0, canonical.keys().len() as int)
                =~= canonical.keys());
            assert(derived.keys().subrange(0, derived.keys().len() as int) =~= derived.keys());
        }
        let mut shown: Vec<IndexedRelationship> = Vec::new();
        proof {
            assert(links_view(shown@) =~= Seq::<IndexedRelationshipView>::empty());
        }
        self.show_links(node_id, &canonical, 0, canonical.len(), &mut shown);
        proof {
            assert(links_view(shown@) =~= links_shown(self@, node_id, canonical.keys()));
        }
        self.show_links(node_id, &derived, 0, derived.len(), &mut shown);
        shown
    }

    /// A window of the backlinks of a Node, canonical and derived ones together by key, then
    /// source, then provenance, then place.
    pub fn backlinks_page(&self, node_id: NodeId, page: ReadPage) -> (r: Result<
        Vec<IndexedRelationship>,
        CoreError,
    >)
        requires
            self.wf(),
        ensures
            match r {
                Ok(items) => page_fault(page) is None && links_view(items@) == links_shown(
                    self@,
                    node_id,
                    page_of(in_order::<LinkKey>(all_links(self@, node_id)), page),
                ),
                Err(e) => page_fault(page) == Some(e@),
            },
    {
        match page.sql_offset() {
            Err(e) => return Err(e),
            Ok(_) => {},
        }
        let mut links: Table<LinkKey, Present> = Table::new();
        self.add_canonical_links(node_id, &mut links);
        self.add_derived_links(node_id, &mut links);
        proof {
            links.lemma_view();
            assert(links@.dom() =~= all_links(self@, node_id));
        }
        let (from, to) = window_bounds(page.offset, page.sql_limit() as usize, links.len());
        let mut shown: Vec<IndexedRelationship> = Vec::new();
        proof {
            assert(links_view(shown@) =~= Seq::<IndexedRelationshipView>::empty());
        }
        self.show_links(node_id, &links, from, to, &mut shown);
        proof {
            assert(links_view(shown@) =~= links_shown(
                self@,
                node_id,
                links.keys().subrange(from as int, to as int),
            ));
        }
        Ok(shown)
    }
}

} // verus!
