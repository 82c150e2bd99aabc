//! Listing the Properties and Relationships of a Node.
use vstd::prelude::*;
use crate::api::{
    page_fault, page_of, window_bounds, ReadPage, Relationship, RelationshipDirection,
    RelationshipView,
};
use crate::error::CoreError;
use crate::id::NodeId;
use crate::record_store::keys::{key_fault, validate_key, KeyUse};
use crate::record_store::model::{NodeRow, Present, PropertyRowView, RecordModel, RecordStore};
use crate::record_store::operations::{never_issued, no_node};
use crate::table::{in_order, Table, TableKey};
use crate::text::{
    lemma_text_before_irreflexive, lemma_text_before_total, lemma_text_before_transitive,
    same_text, str_before, text_before,
};
use crate::value::{PropertyValue, ValueView};

verus! {

/// Keys and values, the texts taken as sequences of characters.
pub open spec fn pairs_view(pairs: Seq<(String, PropertyValue)>) -> Seq<(Seq<char>, ValueView)> {
    Seq::new(pairs.len(), |i: int| (pairs[i].0@, pairs[i].1@))
}

/// The Properties of a Node, in the order of their keys.
pub open spec fn property_list(properties: Map<Seq<char>, PropertyRowView>) -> Seq<
    (Seq<char>, ValueView),
> {
    let keys = in_order::<String>(properties.dom());
    Seq::new(keys.len(), |i: int| (keys[i], properties[keys[i]].value))
}

/// The characters of an optional text.
pub open spec fn optional_str(text: Option<&str>) -> Option<Seq<char>> {
    match text {
        Some(t) => Some(t@),
        None => None,
    }
}

/// Whether a Relationship has the Node at the end that was asked for, and the key if one was.
pub open spec fn relationship_matches(
    r: RelationshipView,
    id: NodeId,
    direction: RelationshipDirection,
    key: Option<Seq<char>>,
) -> bool {
    &&& match direction {
        RelationshipDirection::Outgoing => r.source == id,
        RelationshipDirection::Incoming => r.target == id,
        RelationshipDirection::Either => r.source == id || r.target == id,
    }
    &&& match key {
        Some(k) => r.key == k,
        None => true,
    }
}

/// The Relationships that were asked for: outgoing ones by target, then key; others by source,
/// then key, then target.
pub open spec fn relationship_list(
    m: RecordModel,
    id: NodeId,
    direction: RelationshipDirection,
    key: Option<Seq<char>>,
) -> Seq<RelationshipView> {
    let found = m.relationships.dom().filter(
        |r: RelationshipView| relationship_matches(r, id, direction, key),
    );
    match direction {
        RelationshipDirection::Outgoing => in_order::<ByTarget>(found),
        _ => in_order::<Relationship>(found),
    }
}

/// The views of a run of Relationships.
pub open spec fn relationships_view(items: Seq<Relationship>) -> Seq<RelationshipView> {
    Seq::new(items.len(), |i: int| items[i]@)
}

/// A Relationship that stands by target, then key, then source.
pub struct ByTarget {
    pub relationship: Relationship,
}

impl View for ByTarget {
    type V = RelationshipView;

    open spec fn view(&self) -> RelationshipView {
        self.relationship@
    }
}

impl TableKey for ByTarget {
    open spec fn before(a: RelationshipView, b: RelationshipView) -> bool {
        if a.target != b.target {
            NodeId::before(a.target, b.target)
        } else if a.key != b.key {
            text_before(a.key, b.key)
        } else {
            NodeId::before(a.source, b.source)
        }
    }

    proof fn before_irreflexive(a: RelationshipView) {
        NodeId::before_irreflexive(a.source);
    }

    proof fn before_transitive(a: RelationshipView, b: RelationshipView, c: RelationshipView) {
        if a.target == b.target && b.target == c.target {
            if a.key == b.key && b.key == c.key {
                NodeId::before_transitive(a.source, b.source, c.source);
            } else if a.key != b.key && b.key != c.key {
                lemma_text_before_transitive(a.key, b.key, c.key);
                lemma_text_before_irreflexive(a.key);
            }
        } else if a.target != b.target && b.target != c.target {
            NodeId::before_transitive(a.target, b.target, c.target);
            NodeId::before_irreflexive(a.target);
        }
    }

    proof fn before_total(a: RelationshipView, b: RelationshipView) {
        NodeId::before_total(a.source, b.source);
        lemma_text_before_total(a.key, b.key);
        NodeId::before_total(a.target, b.target);
    }

    fn is_before(&self, other: &ByTarget) -> (r: bool) {
        let a = &self.relationship;
        let b = &other.relationship;
        if !a.target.same(&b.target) {
            a.target.is_before(&b.target)
        } else if !same_text(a.key.as_str(), b.key.as_str()) {
            str_before(a.key.as_str(), b.key.as_str())
        } else {
            a.source.is_before(&b.source)
        }
    }

    fn copy_key(&self) -> (r: ByTarget) {
        ByTarget { relationship: self.relationship.clone() }
    }
}

/// The Properties of a Node from one place of their order to another.
fn properties_between(row: &NodeRow, from: usize, to: usize) -> (r: Vec<(String, PropertyValue)>)
    requires
        row.properties.wf(),
        from <= to <= row.properties.keys().len(),
    ensures
        pairs_view(r@) == property_list(row@.properties).subrange(from as int, to as int),
{
    let mut r: Vec<(String, PropertyValue)> = Vec::new();
    let mut i: usize = from;
    proof {
        row.properties.lemma_view();
    }
    while i < to
        invariant
            row.properties.wf(),
            from <= i <= to <= row.properties.keys().len(),
            r@.len() == i - from,
            forall|j: int|
                0 <= j < r@.len() ==> {
                    let key = row.properties.keys()[from + j];
                    (#[trigger] r@[j]).0@ == key && r@[j].1@ == row.properties@[key].value
                },
        decreases to - i,
    {
        let key = row.properties.key_at(i).clone();
        let value = row.properties.row_at(i).value.clone();
        r.push((key, value));
        i = i + 1;
    }
    proof {
        row.properties.lemma_view();
        assert(pairs_view(r@) =~= property_list(row@.properties).subrange(from as int, to as int));
    }
    r
}

/// Whether a Relationship is one that was asked for.
fn matches_request(
    r: &Relationship,
    id: NodeId,
    direction: RelationshipDirection,
    key: Option<&str>,
) -> (found: bool)
    ensures
        found == relationship_matches(r@, id, direction, optional_str(key)),
{
    let end = match direction {
        RelationshipDirection::Outgoing => r.source.same(&id),
        RelationshipDirection::Incoming => r.target.same(&id),
        RelationshipDirection::Either => r.source.same(&id) || r.target.same(&id),
    };
    end && match key {
        Some(k) => same_text(r.key.as_str(), k),
        None => true,
    }
}

impl RecordStore {
    /// The Properties of a Node, in the order of their keys.
    pub fn list_properties(&self, node_id: NodeId) -> (r: Result<
        Vec<(String, PropertyValue)>,
        CoreError,
    >)
        requires
            self.wf(),
        ensures
            match r {
                Ok(pairs) => self@.nodes.dom().contains(node_id) && pairs_view(pairs@)
                    == property_list(self@.nodes[node_id].properties),
                Err(e) => !self@.nodes.dom().contains(node_id) && e@ == no_node(node_id),
            },
    {
        match self.require_node(node_id) {
            Err(e) => Err(e),
            Ok(row) => {
                let len: usize = row.properties.len();
                proof {
                    row.properties.lemma_view();
                    let all = property_list(row@.properties);
                    assert(all.subrange(0, len as int) =~= all);
                }
                Ok(properties_between(row, 0, len))
            },
        }
    }

    /// A window of the Properties of a Node, in the order of their keys.
    pub fn list_properties_page(&self, node_id: NodeId, page: ReadPage) -> (r: Result<
        Vec<(String, PropertyValue)>,
        CoreError,
    >)
        requires
            self.wf(),
        ensures
            match r {
                Ok(pairs) => self@.nodes.dom().contains(node_id) && page_fault(page) is None
                    && pairs_view(pairs@) == page_of(
                    property_list(self@.nodes[node_id].properties),
                    page,
                ),
                Err(e) => if !self@.nodes.dom().contains(node_id) {
                    e@ == no_node(node_id)
                } else {
                    page_fault(page) == Some(e@)
                },
            },
    {
        match self.require_node(node_id) {
            Err(e) => Err(e),
            Ok(row) => match page.sql_offset() {
                Err(e) => Err(e),
                Ok(_) => {
                    let (from, to) = window_bounds(
                        page.offset,
                        page.sql_limit() as usize,
                        row.properties.len(),
                    );
                    proof {
                        row.properties.lemma_view();
                    }
                    Ok(properties_between(row, from, to))
                },
            },
        }
    }

    /// The Relationships that were asked for, between two places of their order, the second one
    /// no further than their end.
    fn relationships_found(
        &self,
        id: NodeId,
        direction: RelationshipDirection,
        key: Option<&str>,
        page: Option<ReadPage>,
    ) -> (r: Vec<Relationship>)
        requires
            self.wf(),
            page is Some ==> page_fault(page->0) is None,
        ensures
            relationships_view(r@) == match page {
                Some(page) => page_of(
                    relationship_list(self@, id, direction, optional_str(key)),
                    page,
                ),
                None => relationship_list(self@, id, direction, optional_str(key)),
            },
    {
        let ghost wanted = |r: RelationshipView|
            relationship_matches(r, id, direction, optional_str(key));
        let ghost all = self.relationships.keys();
        let ghost dom = self@.relationships.dom();
        let mut plain: Table<Relationship, Present> = Table::new();
        let mut by_target: Table<ByTarget, Present> = Table::new();
        let outgoing = direction == RelationshipDirection::Outgoing;
        let mut i: usize = 0;
        proof {
            self.relationships.lemma_view();
        }
        while i < self.relationships.len()
            invariant
                self.wf(),
                i <= all.len(),
                all == self.relationships.keys(),
                dom == self@.relationships.dom(),
                plain.wf(),
                by_target.wf(),
                outgoing == (direction is Outgoing),
                wanted == (|r: RelationshipView|
                    relationship_matches(r, id, direction, optional_str(key))),
                forall|k: RelationshipView| #[trigger]
                    plain@.dom().contains(k) <==> !outgoing && all.subrange(0, i as int).contains(
                        k,
                    ) && wanted(k),
                forall|k: RelationshipView| #[trigger]
                    by_target@.dom().contains(k) <==> outgoing && all.subrange(
                        0,
                        i as int,
                    ).contains(k) && wanted(k),
            decreases all.len() - i,
        {
            let r = self.relationships.key_at(i);
            proof {
                let was = all.subrange(0, i as int);
                let now = all.subrange(0, i + 1);
                assert(now =~= was.push(r@));
                assert forall|k: RelationshipView| #[trigger]
                    now.contains(k) <==> was.contains(k) || k == r@ by {
                    if was.contains(k) {
                        let j = was.index_of(k);
                        assert(now[j] == k);
                    }
                    assert(now[i as int] == r@);
                }
                assert(wanted(r@) == relationship_matches(r@, id, direction, optional_str(key)));
            }
            if matches_request(r, id, direction, key) {
                if outgoing {
                    by_target.insert(ByTarget { relationship: r.clone() }, Present);
                } else {
                    plain.insert(r.clone(), Present);
                }
            }
            i = i + 1;
        }
        proof {
            self.relationships.lemma_view();
            assert(all.subrange(0, i as int) =~= all);
            plain.lemma_view();
            by_target.lemma_view();
            let found = dom.filter(wanted);
            if outgoing {
                assert(by_target@.dom() =~= found);
            } else {
                assert(plain@.dom() =~= found);
            }
        }
        let len: usize = if outgoing {
            by_target.len()
        } else {
            plain.len()
        };
        let (from, to): (usize, usize) = match page {
            Some(page) => window_bounds(page.offset, page.sql_limit() as usize, len),
            None => (0, len),
        };
        let ghost list = relationship_list(self@, id, direction, optional_str(key));
        let mut r: Vec<Relationship> = Vec::new();
        let mut j: usize = from;
        while j < to
            invariant
                plain.wf(),
                by_target.wf(),
                from <= j <= to <= list.len(),
                outgoing ==> list == by_target.keys(),
                !outgoing ==> list == plain.keys(),
                r@.len() == j - from,
                forall|k: int| 0 <= k < r@.len() ==> (#[trigger] r@[k])@ == list[from + k],
            decreases to - j,
        {
            if outgoing {
                r.push(by_target.key_at(j).relationship.clone());
            } else {
                r.push(plain.key_at(j).clone());
            }
            j = j + 1;
        }
        proof {
            assert(relationships_view(r@) =~= list.subrange(from as int, to as int));
            assert(list.subrange(0, list.len() as int) =~= list);
        }
        r
    }

    /// The Relationships of an issued ID.
    pub fn query_relationships(
        &self,
        node_id: NodeId,
        direction: RelationshipDirection,
        key: Option<&str>,
    ) -> (r: Result<Vec<Relationship>, CoreError>)
        requires
            self.wf(),
        ensures
            match r {
                Ok(items) => self@.issued.contains(node_id) && (key is Some ==> key_fault(
                    key->0@,
                    KeyUse::Relationship,
                ) is None) && relationships_view(items@) == relationship_list(
                    self@,
                    node_id,
                    direction,
                    optional_str(key),
                ),
                Err(e) => if !self@.issued.contains(node_id) {
                    e@ == never_issued(node_id)
                } else {
                    key is Some && key_fault(key->0@, KeyUse::Relationship) == Some(e@)
                },
            },
    {
        match self.require_issued_id(node_id) {
            Err(e) => return Err(e),
            Ok(_) => {},
        }
        if let Some(k) = key {
            match validate_key(k, KeyUse::Relationship) {
                Err(e) => return Err(e),
                Ok(_) => {},
            }
        }
        Ok(self.relationships_found(node_id, direction, key, None))
    }

    /// A window of the Relationships of an issued ID.
    pub fn query_relationships_page(
        &self,
        node_id: NodeId,
        direction: RelationshipDirection,
        key: Option<&str>,
        page: ReadPage,
    ) -> (r: Result<Vec<Relationship>, CoreError>)
        requires
            self.wf(),
        ensures
            match r {
                Ok(items) => self@.issued.contains(node_id) && (key is Some ==> key_fault(
                    key->0@,
                    KeyUse::Relationship,
                ) is None) && page_fault(page) is None && relationships_view(items@) == page_of(
                    relationship_list(self@, node_id, direction, optional_str(key)),
                    page,
                ),
                Err(e) => if !self@.issued.contains(node_id) {
                    e@ == never_issued(node_id)
                } else if key is Some && key_fault(key->0@, KeyUse::Relationship) is Some {
                    key_fault(key->0@, KeyUse::Relationship) == Some(e@)
                } else {
                    page_fault(page) == Some(e@)
                },
            },
    {
        match self.require_issued_id(node_id) {
            Err(e) => return Err(e),
            Ok(_) => {},
        }
        if let Some(k) = key {
            match validate_key(k, KeyUse::Relationship) {
                Err(e) => return Err(e),
                Ok(_) => {},
            }
        }
        match page.sql_offset() {
            Err(e) => Err(e),
            Ok(_) => Ok(self.relationships_found(node_id, direction, key, Some(page))),
        }
    }
}

} // verus!
