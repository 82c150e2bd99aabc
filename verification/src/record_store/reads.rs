//! What reading a store shows, told of the facts that it holds.
use vstd::prelude::*;
use crate::api::{
    page_fault, page_of, window, ReadPage, Relationship, RelationshipDirection, RelationshipView,
};
use crate::id::NodeId;
use crate::paging::lemma_in_order_lists;
use crate::record_store::definitions::{
    property_definition_list, property_fact_count, property_replacement_count,
    relationship_definition_list, relationship_fact_count, relationship_replacement_count,
};
use crate::record_store::model::{PropertyRowView, RecordModel};
use crate::record_store::queries::{property_list, relationship_list, ByTarget};
use crate::table::{ascending, in_order, TableKey};
use crate::text::text_before;
use crate::value::ValueView;

verus! {

/// Two sets of keys with the same members are listed alike, each member once, in their order.
proof fn lemma_listed<K: TableKey>(dom: Set<K::V>)
    requires
        dom.finite(),
    ensures
        ascending::<K>(in_order::<K>(dom)),
        forall|k: K::V| #[trigger] in_order::<K>(dom).contains(k) <==> dom.contains(k),
        in_order::<K>(dom).no_duplicates(),
        in_order::<K>(dom).len() == dom.len(),
{
    lemma_in_order_lists::<K>(dom);
    let s = in_order::<K>(dom);
    assert forall|i: int, j: int| 0 <= i < s.len() && 0 <= j < s.len() && i != j implies s[i]
        != s[j] by {
        K::before_irreflexive(s[i]);
        if i < j {
            assert(K::before(s[i], s[j]));
        } else {
            assert(K::before(s[j], s[i]));
        }
    }
}

/// A Relationship is shown for a Node exactly where it is there, has the key that was asked for, if
/// any was, and has the Node at the end that was asked for: outgoing ones begin at it, incoming ones
/// end at it, and either are both of those together. None is shown twice.
pub proof fn law_relationships_are_found(
    m: RecordModel,
    id: NodeId,
    key: Option<Seq<char>>,
    r: RelationshipView,
)
    requires
        m.relationships.dom().finite(),
    ensures
        ({
            let outgoing = relationship_list(m, id, RelationshipDirection::Outgoing, key);
            let incoming = relationship_list(m, id, RelationshipDirection::Incoming, key);
            let either = relationship_list(m, id, RelationshipDirection::Either, key);
            let wanted = m.relationships.dom().contains(r) && (key is Some ==> r.key == key->0);
            &&& outgoing.contains(r) <==> wanted && r.source == id
            &&& incoming.contains(r) <==> wanted && r.target == id
            &&& either.contains(r) <==> outgoing.contains(r) || incoming.contains(r)
            &&& outgoing.no_duplicates()
            &&& incoming.no_duplicates()
            &&& either.no_duplicates()
        }),
{
    let dom = m.relationships.dom();
    lemma_relationships_listed(m, id, RelationshipDirection::Outgoing, key);
    lemma_relationships_listed(m, id, RelationshipDirection::Incoming, key);
    lemma_relationships_listed(m, id, RelationshipDirection::Either, key);
}

proof fn lemma_relationships_listed(
    m: RecordModel,
    id: NodeId,
    direction: RelationshipDirection,
    key: Option<Seq<char>>,
)
    requires
        m.relationships.dom().finite(),
    ensures
        ({
            let list = relationship_list(m, id, direction, key);
            &&& forall|r: RelationshipView| #[trigger]
                list.contains(r) <==> m.relationships.dom().contains(r)
                    && crate::record_store::queries::relationship_matches(r, id, direction, key)
            &&& list.no_duplicates()
            &&& if direction is Outgoing {
                ascending::<ByTarget>(list)
            } else {
                ascending::<Relationship>(list)
            }
        }),
{
    let found = m.relationships.dom().filter(
        |r: RelationshipView|
            crate::record_store::queries::relationship_matches(r, id, direction, key),
    );
    assert(found.finite());
    lemma_listed::<ByTarget>(found);
    lemma_listed::<Relationship>(found);
}

/// Relationships of a Node are shown in order: outgoing ones by target and, with the same target, by
/// key; the others by source, with the same source by key, and with both the same by target.
pub proof fn law_relationships_are_ordered(
    m: RecordModel,
    id: NodeId,
    direction: RelationshipDirection,
    key: Option<Seq<char>>,
    i: int,
    j: int,
)
    requires
        m.relationships.dom().finite(),
        0 <= i < j < relationship_list(m, id, direction, key).len(),
    ensures
        ({
            let a = relationship_list(m, id, direction, key)[i];
            let b = relationship_list(m, id, direction, key)[j];
            if direction is Outgoing {
                NodeId::before(a.target, b.target) || (a.target == b.target && text_before(
                    a.key,
                    b.key,
                ))
            } else {
                ||| NodeId::before(a.source, b.source)
                ||| a.source == b.source && text_before(a.key, b.key)
                ||| a.source == b.source && a.key == b.key && NodeId::before(a.target, b.target)
            }
        }),
{
    lemma_relationships_listed(m, id, direction, key);
    let list = relationship_list(m, id, direction, key);
    let a = list[i];
    let b = list[j];
    if direction is Outgoing {
        assert(ByTarget::before(a, b));
        assert(list.contains(a) && list.contains(b));
        assert(a.source == id && b.source == id);
        NodeId::before_irreflexive(id);
    } else {
        assert(Relationship::before(a, b));
    }
}

/// The Properties of a Node are listed with their values, each once, in the order of their keys.
pub proof fn law_properties_are_listed(properties: Map<Seq<char>, PropertyRowView>)
    requires
        properties.dom().finite(),
    ensures
        ({
            let list = property_list(properties);
            &&& list.len() == properties.dom().len()
            &&& forall|k: Seq<char>, v: ValueView| #[trigger]
                list.contains((k, v)) <==> properties.dom().contains(k) && properties[k].value == v
            &&& forall|i: int, j: int|
                0 <= i < j < list.len() ==> text_before((#[trigger] list[i]).0, (
                #[trigger] list[j]).0)
        }),
{
    let keys = in_order::<String>(properties.dom());
    let list = property_list(properties);
    lemma_listed::<String>(properties.dom());
    assert forall|k: Seq<char>, v: ValueView| #[trigger]
        list.contains((k, v)) <==> properties.dom().contains(k) && properties[k].value == v by {
        if properties.dom().contains(k) && properties[k].value == v {
            assert(keys.contains(k));
            let i = keys.index_of(k);
            assert(list[i] == (k, v));
        }
        if list.contains((k, v)) {
            let i = list.index_of((k, v));
            assert(keys[i] == k);
            assert(keys.contains(k));
        }
    }
    assert forall|i: int, j: int| 0 <= i < j < list.len() implies text_before(
        (#[trigger] list[i]).0,
        (#[trigger] list[j]).0,
    ) by {
        assert(String::before(keys[i], keys[j]));
    }
}

/// The definitions are listed each once, in the order of their keys.
pub proof fn law_definitions_are_listed(m: RecordModel)
    requires
        m.property_definitions.dom().finite(),
        m.relationship_definitions.dom().finite(),
        forall|k: Seq<char>| #[trigger]
            m.property_definitions.dom().contains(k) ==> m.property_definitions[k].definition.key
                == k,
        forall|k: Seq<char>| #[trigger]
            m.relationship_definitions.dom().contains(k)
                ==> m.relationship_definitions[k].definition.key == k,
    ensures
        ({
            let list = property_definition_list(m);
            &&& list.len() == m.property_definitions.dom().len()
            &&& forall|k: Seq<char>| #[trigger]
                m.property_definitions.dom().contains(k) ==> list.contains(
                    m.property_definitions[k].definition,
                )
            &&& forall|i: int|
                0 <= i < list.len() ==> m.property_definitions.dom().contains((#[trigger] list[i]).key)
                    && m.property_definitions[list[i].key].definition == list[i]
            &&& forall|i: int, j: int|
                0 <= i < j < list.len() ==> text_before((#[trigger] list[i]).key, (
                #[trigger] list[j]).key)
        }),
        ({
            let list = relationship_definition_list(m);
            &&& list.len() == m.relationship_definitions.dom().len()
            &&& forall|k: Seq<char>| #[trigger]
                m.relationship_definitions.dom().contains(k) ==> list.contains(
                    m.relationship_definitions[k].definition,
                )
            &&& forall|i: int|
                0 <= i < list.len() ==> m.relationship_definitions.dom().contains(
                    (#[trigger] list[i]).key,
                ) && m.relationship_definitions[list[i].key].definition == list[i]
            &&& forall|i: int, j: int|
                0 <= i < j < list.len() ==> text_before((#[trigger] list[i]).key, (
                #[trigger] list[j]).key)
        }),
{
    let p = in_order::<String>(m.property_definitions.dom());
    let r = in_order::<String>(m.relationship_definitions.dom());
    lemma_listed::<String>(m.property_definitions.dom());
    lemma_listed::<String>(m.relationship_definitions.dom());
    let ps = property_definition_list(m);
    let rs = relationship_definition_list(m);
    assert forall|k: Seq<char>| #[trigger] m.property_definitions.dom().contains(k) implies ps.contains(
    m.property_definitions[k].definition) by {
        assert(p.contains(k));
        assert(ps[p.index_of(k)] == m.property_definitions[k].definition);
    }
    assert forall|k: Seq<char>| #[trigger]
        m.relationship_definitions.dom().contains(k) implies rs.contains(
        m.relationship_definitions[k].definition,
    ) by {
        assert(r.contains(k));
        assert(rs[r.index_of(k)] == m.relationship_definitions[k].definition);
    }
    assert forall|i: int| 0 <= i < ps.len() implies m.property_definitions.dom().contains(
        (#[trigger] ps[i]).key,
    ) && m.property_definitions[ps[i].key].definition == ps[i] by {
        assert(p.contains(p[i]));
    }
    assert forall|i: int| 0 <= i < rs.len() implies m.relationship_definitions.dom().contains(
        (#[trigger] rs[i]).key,
    ) && m.relationship_definitions[rs[i].key].definition == rs[i] by {
        assert(r.contains(r[i]));
    }
    assert forall|i: int, j: int| 0 <= i < j < ps.len() implies text_before(
        (#[trigger] ps[i]).key,
        (#[trigger] ps[j]).key,
    ) by {
        assert(p.contains(p[i]) && p.contains(p[j]));
        assert(String::before(p[i], p[j]));
    }
    assert forall|i: int, j: int| 0 <= i < j < rs.len() implies text_before(
        (#[trigger] rs[i]).key,
        (#[trigger] rs[j]).key,
    ) by {
        assert(r.contains(r[i]) && r.contains(r[j]));
        assert(String::before(r[i], r[j]));
    }
}

/// A window shows consecutive items from its offset on: as many as there are, but no more than its
/// limit. Windows that follow each other show what one window over both shows.
pub proof fn law_windows_show_what_is_there<T>(s: Seq<T>, offset: nat, limit: nat, more: nat)
    ensures
        window(s, offset, limit).len() == if offset >= s.len() {
            0
        } else if offset + limit <= s.len() {
            limit as int
        } else {
            s.len() - offset
        },
        forall|i: int|
            0 <= i < window(s, offset, limit).len() ==> #[trigger] window(s, offset, limit)[i]
                == s[offset + i],
        window(s, offset, limit) + window(s, offset + limit, more) == window(
            s,
            offset,
            limit + more,
        ),
        window(s, 0, s.len()) == s,
{
    assert(window(s, offset, limit) + window(s, offset + limit, more) =~= window(
        s,
        offset,
        limit + more,
    ));
    assert(window(s, 0, s.len()) =~= s);
}

/// A page is the window from its offset on with its limit, where that lies between one and a
/// thousand; a lower limit counts as one, a higher one as a thousand. Only an offset beyond 63 bits is
/// refused.
pub proof fn law_pages_are_windows<T>(s: Seq<T>, page: ReadPage)
    ensures
        1 <= page.limit <= 1_000 ==> page_of(s, page) == window(
            s,
            page.offset as nat,
            page.limit as nat,
        ),
        page.limit == 0 ==> page_of(s, page) == window(s, page.offset as nat, 1),
        page.limit > 1_000 ==> page_of(s, page) == window(s, page.offset as nat, 1_000),
        page_fault(page) is Some <==> page.offset > i64::MAX,
        page_fault(page) is Some ==> page_fault(page)->0 is Conflict,
{
}

/// A definition is used by a Node exactly where the Node, in whatever state, has a Property of its
/// key: giving one more Node such a Property counts one more, and a key that no Node has counts none.
pub proof fn law_property_uses_are_counted(
    m: RecordModel,
    n: RecordModel,
    id: NodeId,
    key: Seq<char>,
)
    requires
        m.nodes.dom().finite(),
        n.nodes.dom() == m.nodes.dom().insert(id),
        n.nodes[id].properties.dom().contains(key),
        m.nodes.dom().contains(id) ==> !m.nodes[id].properties.dom().contains(key),
        forall|other: NodeId|
            other != id && m.nodes.dom().contains(other) ==> (
            #[trigger] n.nodes[other]).properties.dom().contains(key)
                == m.nodes[other].properties.dom().contains(key),
    ensures
        property_fact_count(n, key) == property_fact_count(m, key) + 1,
        property_fact_count(m, key) == 0 <==> forall|other: NodeId| #[trigger]
            m.nodes.dom().contains(other) ==> !m.nodes[other].properties.dom().contains(key),
        property_fact_count(m, key) <= m.nodes.dom().len(),
{
    let a = m.nodes.dom().filter(|x: NodeId| m.nodes[x].properties.dom().contains(key));
    let b = n.nodes.dom().filter(|x: NodeId| n.nodes[x].properties.dom().contains(key));
    assert(a.finite());
    assert(b =~= a.insert(id)) by {
        assert forall|x: NodeId| b.contains(x) <==> a.insert(id).contains(x) by {
            if x != id && m.nodes.dom().contains(x) {
                assert(n.nodes[x].properties.dom().contains(key)
                    == m.nodes[x].properties.dom().contains(key));
            }
        }
    }
    assert(!a.contains(id));
    lemma_none_or_some(a);
    assert forall|other: NodeId| #[trigger] m.nodes.dom().contains(other)
        && property_fact_count(m, key) == 0 implies !m.nodes[other].properties.dom().contains(
        key,
    ) by {
        assert(!a.contains(other));
    }
    if forall|other: NodeId| #[trigger]
        m.nodes.dom().contains(other) ==> !m.nodes[other].properties.dom().contains(key) {
        assert(a =~= Set::empty());
    }
    vstd::set_lib::lemma_len_subset(a, m.nodes.dom());
}

/// A finite set is empty exactly where it has no member.
pub proof fn lemma_none_or_some<A>(s: Set<A>)
    requires
        s.finite(),
    ensures
        s.len() == 0 <==> forall|a: A| !s.contains(a),
{
    if s.len() == 0 {
        assert(s =~= Set::empty());
    }
    if forall|a: A| !s.contains(a) {
        assert(s =~= Set::empty());
    }
}

/// A Relationship definition is used by every Relationship of its key: one more of them counts one
/// more, one of another key counts none.
pub proof fn law_relationship_uses_are_counted(
    m: RecordModel,
    n: RecordModel,
    r: RelationshipView,
    key: Seq<char>,
)
    requires
        m.relationships.dom().finite(),
        !m.relationships.dom().contains(r),
        n.relationships.dom() == m.relationships.dom().insert(r),
    ensures
        relationship_fact_count(n, r.key) == relationship_fact_count(m, r.key) + 1,
        key != r.key ==> relationship_fact_count(n, key) == relationship_fact_count(m, key),
        relationship_fact_count(m, key) == 0 <==> forall|other: RelationshipView| #[trigger]
            m.relationships.dom().contains(other) ==> other.key != key,
{
    let all = m.relationships.dom();
    let a = all.filter(|x: RelationshipView| x.key == r.key);
    let b = n.relationships.dom().filter(|x: RelationshipView| x.key == r.key);
    assert(a.finite());
    assert(b =~= a.insert(r));
    let c = all.filter(|x: RelationshipView| x.key == key);
    assert(c.finite());
    if key != r.key {
        assert(n.relationships.dom().filter(|x: RelationshipView| x.key == key) =~= c);
    }
    lemma_none_or_some(c);
    assert forall|other: RelationshipView| #[trigger] all.contains(other)
        && relationship_fact_count(m, key) == 0 implies other.key != key by {
        assert(!c.contains(other));
    }
    if forall|other: RelationshipView| #[trigger] all.contains(other) ==> other.key != key {
        assert(c =~= Set::empty());
    }
}

/// No definition names a key as its replacement exactly where that key is counted as no replacement.
pub proof fn law_replacements_are_counted(m: RecordModel, key: Seq<char>)
    requires
        m.property_definitions.dom().finite(),
        m.relationship_definitions.dom().finite(),
    ensures
        property_replacement_count(m, key) == 0 <==> forall|k: Seq<char>| #[trigger]
            m.property_definitions.dom().contains(k)
                ==> m.property_definitions[k].definition.replacement_key != Some(key),
        relationship_replacement_count(m, key) == 0 <==> forall|k: Seq<char>| #[trigger]
            m.relationship_definitions.dom().contains(k)
                ==> m.relationship_definitions[k].definition.replacement_key != Some(key),
        property_replacement_count(m, key) <= m.property_definitions.dom().len(),
        relationship_replacement_count(m, key) <= m.relationship_definitions.dom().len(),
{
    let a = m.property_definitions.dom().filter(
        |k: Seq<char>|
            crate::record_store::definitions::is_text(
                m.property_definitions[k].definition.replacement_key,
                key,
            ),
    );
    let b = m.relationship_definitions.dom().filter(
        |k: Seq<char>|
            crate::record_store::definitions::is_text(
                m.relationship_definitions[k].definition.replacement_key,
                key,
            ),
    );
    assert(a.finite() && b.finite());
    lemma_none_or_some(a);
    lemma_none_or_some(b);
    vstd::set_lib::lemma_len_subset(a, m.property_definitions.dom());
    vstd::set_lib::lemma_len_subset(b, m.relationship_definitions.dom());
    assert forall|k: Seq<char>| #[trigger] m.property_definitions.dom().contains(k)
        && property_replacement_count(m, key)
        == 0 implies m.property_definitions[k].definition.replacement_key != Some(key) by {
        assert(!a.contains(k));
    }
    assert forall|k: Seq<char>| #[trigger] m.relationship_definitions.dom().contains(k)
        && relationship_replacement_count(m, key)
        == 0 implies m.relationship_definitions[k].definition.replacement_key != Some(key) by {
        assert(!b.contains(k));
    }
    if forall|k: Seq<char>| #[trigger]
        m.property_definitions.dom().contains(k)
            ==> m.property_definitions[k].definition.replacement_key != Some(key) {
        assert(a =~= Set::empty());
    }
    if forall|k: Seq<char>| #[trigger]
        m.relationship_definitions.dom().contains(k)
            ==> m.relationship_definitions[k].definition.replacement_key != Some(key) {
        assert(b =~= Set::empty());
    }
}

} // verus!
