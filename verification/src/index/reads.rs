//! What the Index answers, told of the facts and the content that it holds.
use vstd::prelude::*;
use crate::api::{
    page_of, PropertyFilter, PropertyQuery, PropertySort, ReadPage, Relationship,
    RelationshipProvenance, RelationshipView,
};
use crate::codec::encoded;
use crate::id::NodeId;
use crate::index::links::{
    all_links, backlink_list, canonical_links, derived_links, links_shown, IndexedRelationshipView,
    LinkKey, LinkView,
};
use crate::index::model::{DerivedKeyView, IndexModel};
use crate::index::query::{
    column_for, kind_rank, match_key, match_list, match_set, query_fault, query_limit, MatchKey,
    MatchView, ValueColumn,
};
use crate::paging::lemma_in_order_lists;
use crate::table::{ascending, in_order, TableKey};
use crate::text::{
    is_blank, lemma_text_before_irreflexive, lemma_text_before_total, lemma_text_before_transitive,
    text_before,
};
use crate::value::{
    carrier_of, kind_name, kind_of, real_rank, PropertyValue, PropertyValueKind, ValueView,
};

verus! {

/// Whether the Index has a Node that is active.
pub open spec fn has_active(x: IndexModel, id: NodeId) -> bool {
    x.nodes.dom().contains(id) && x.nodes[id].lifecycle_state is Active
}

/// Whether a text stands before another or is the same.
pub open spec fn text_up_to(a: Seq<char>, b: Seq<char>) -> bool {
    a == b || text_before(a, b)
}

proof fn lemma_text_up_to(a: Seq<char>, b: Seq<char>)
    ensures
        text_up_to(a, b) <==> !text_before(b, a),
{
    lemma_text_before_total(a, b);
    if text_before(b, a) && text_before(a, b) {
        lemma_text_before_transitive(a, b, a);
    }
    lemma_text_before_irreflexive(a);
}

/// Whether bits are those of a number or of an infinity: not all exponent bits are set, or all bits
/// behind them are zero.
pub open spec fn is_number(bits: u64) -> bool {
    (bits / 0x10_0000_0000_0000) % 2048 < 2047 || bits % 0x10_0000_0000_0000 == 0
}

/// Whether a value is at most another of the same kind, where the kind has an order: false before
/// true, numbers by size, texts, dates and date-times by their characters.
pub open spec fn at_most(v: ValueView, bound: PropertyValue) -> bool {
    match (v, bound) {
        (ValueView::Boolean(a), PropertyValue::Boolean(b)) => a ==> b,
        (ValueView::Integer(a), PropertyValue::Integer(b)) => a <= b,
        (ValueView::Real(a), PropertyValue::Real(b)) => is_number(b.bits) && real_rank(a.bits)
            <= real_rank(b.bits),
        (ValueView::Text(a), PropertyValue::Text(b)) => text_up_to(a, b@),
        (ValueView::Date(a), PropertyValue::Date(b)) => text_up_to(a, b@),
        (ValueView::DateTime(a), PropertyValue::DateTime(b)) => text_up_to(a, b@),
        _ => false,
    }
}

/// Whether a value is at least another of the same kind, where the kind has an order.
pub open spec fn at_least(v: ValueView, bound: PropertyValue) -> bool {
    match (v, bound) {
        (ValueView::Boolean(a), PropertyValue::Boolean(b)) => b ==> a,
        (ValueView::Integer(a), PropertyValue::Integer(b)) => a >= b,
        (ValueView::Real(a), PropertyValue::Real(b)) => is_number(b.bits) && real_rank(a.bits)
            >= real_rank(b.bits),
        (ValueView::Text(a), PropertyValue::Text(b)) => text_up_to(b@, a),
        (ValueView::Date(a), PropertyValue::Date(b)) => text_up_to(b@, a),
        (ValueView::DateTime(a), PropertyValue::DateTime(b)) => text_up_to(b@, a),
        _ => false,
    }
}

/// Whether a query finds a Node with this value.
pub open spec fn finds(x: IndexModel, query: PropertyQuery, id: NodeId, v: ValueView) -> bool {
    match_list(x, query).contains((id, v))
}

proof fn lemma_matches(x: IndexModel, query: PropertyQuery)
    requires
        x.nodes.dom().finite(),
    ensures
        ({
            let keys = in_order::<MatchKey>(match_set(x, query));
            &&& ascending::<MatchKey>(keys)
            &&& keys.no_duplicates()
            &&& forall|k: MatchView| #[trigger] keys.contains(k) <==> match_set(x, query).contains(k)
            &&& forall|id: NodeId, v: ValueView| #[trigger]
                finds(x, query, id, v) <==> crate::index::query::node_matches(x, query, id)
                    && x.nodes[id].properties[query.key@].value == v
        }),
{
    let set = match_set(x, query);
    let image = x.nodes.dom().map(|id: NodeId| match_key(x, query, id));
    x.nodes.dom().lemma_map_finite(|id: NodeId| match_key(x, query, id));
    assert(set.subset_of(image)) by {
        assert forall|k: MatchView| set.contains(k) implies image.contains(k) by {
            assert(x.nodes.dom().contains(k.node_id));
            assert(k == match_key(x, query, k.node_id));
        }
    }
    vstd::set_lib::lemma_len_subset(set, image);
    lemma_in_order_lists::<MatchKey>(set);
    let keys = in_order::<MatchKey>(set);
    lemma_ascending_distinct::<MatchKey>(keys);
    let list = match_list(x, query);
    assert forall|id: NodeId, v: ValueView| #[trigger]
        finds(x, query, id, v) <==> crate::index::query::node_matches(x, query, id)
            && x.nodes[id].properties[query.key@].value == v by {
        if crate::index::query::node_matches(x, query, id)
            && x.nodes[id].properties[query.key@].value == v {
            let k = match_key(x, query, id);
            assert(set.contains(k));
            assert(keys.contains(k));
            assert(list[keys.index_of(k)] == (id, v));
        }
        if finds(x, query, id, v) {
            let i = list.index_of((id, v));
            assert(keys.contains(keys[i]));
            assert(set.contains(keys[i]));
        }
    }
}

pub proof fn lemma_ascending_distinct<K: TableKey>(s: Seq<K::V>)
    requires
        ascending::<K>(s),
    ensures
        s.no_duplicates(),
{
    assert forall|i: int, j: int| 0 <= i < s.len() && 0 <= j < s.len() && i != j implies s[i]
        != s[j] by {
        K::before_irreflexive(s[i]);
        if i < j {
            assert(K::before(s[i], s[j]));
        } else {
            assert(K::before(s[j], s[i]));
        }
    }
}

/// A query without a filter finds every active Node that has a Property of its key, with the value of
/// that Property, and nothing else. A filter takes of those the Nodes whose value is at most, at
/// least, or equal to what it asks for; no value of another kind is ever taken.
pub proof fn law_queries_find_what_they_ask_for(
    x: IndexModel,
    query: PropertyQuery,
    id: NodeId,
    v: ValueView,
)
    requires
        x.nodes.dom().finite(),
        query_fault(query) is None,
    ensures
        ({
            let has = has_active(x, id) && x.nodes[id].properties.dom().contains(query.key@)
                && x.nodes[id].properties[query.key@].value == v;
            match query.filter {
                None => finds(x, query, id, v) <==> has,
                Some(PropertyFilter::AtMost(bound)) => finds(x, query, id, v) <==> has && at_most(
                    v,
                    bound,
                ),
                Some(PropertyFilter::AtLeast(bound)) => finds(x, query, id, v) <==> has && at_least(
                    v,
                    bound,
                ),
                Some(PropertyFilter::Equals(wanted)) => match wanted {
                    PropertyValue::Null => finds(x, query, id, v) <==> has && v is Null,
                    PropertyValue::List(_) => {
                        &&& finds(x, query, id, v) <==> has && v is List && carrier_of(v)
                            == carrier_of(wanted@)
                        &&& has && v == wanted@ ==> finds(x, query, id, v)
                    },
                    PropertyValue::Structured(json) => finds(x, query, id, v) <==> has && v
                        is Structured && v->Structured_0 == json@,
                    _ => finds(x, query, id, v) <==> has && at_most(v, wanted) && at_least(
                        v,
                        wanted,
                    ),
                },
            }
        }),
{
    lemma_matches(x, query);
    match query.filter {
        Some(PropertyFilter::AtMost(bound)) | Some(PropertyFilter::AtLeast(bound)) | Some(
            PropertyFilter::Equals(bound),
        ) => match (v, bound) {
            (ValueView::Text(a), PropertyValue::Text(b)) => {
                lemma_text_up_to(a, b@);
                lemma_text_up_to(b@, a);
                lemma_text_before_irreflexive(a);
            },
            (ValueView::Date(a), PropertyValue::Date(b)) => {
                lemma_text_up_to(a, b@);
                lemma_text_up_to(b@, a);
                lemma_text_before_irreflexive(a);
            },
            (ValueView::DateTime(a), PropertyValue::DateTime(b)) => {
                lemma_text_up_to(a, b@);
                lemma_text_up_to(b@, a);
                lemma_text_before_irreflexive(a);
            },
            _ => {},
        },
        None => {},
    }
}

/// How the three filters relate: what equals a bound is exactly what is both at most and at least
/// that; what is at most or at least a bound is together all that a query without a filter finds of
/// the bound's kind; and what is at most a bound is also at most a greater one.
pub proof fn law_filters_relate(
    x: IndexModel,
    key: String,
    sort: PropertySort,
    limit: usize,
    id: NodeId,
    n: i64,
    low: i64,
    high: i64,
)
    requires
        x.nodes.dom().finite(),
        !is_blank(key@),
        low <= high,
    ensures
        ({
            let v = ValueView::Integer(n);
            let all = PropertyQuery { key, filter: None, sort, limit };
            let at_most_low = PropertyQuery {
                filter: Some(PropertyFilter::AtMost(PropertyValue::Integer(low))),
                ..all
            };
            let at_most_high = PropertyQuery {
                filter: Some(PropertyFilter::AtMost(PropertyValue::Integer(high))),
                ..all
            };
            let at_least_low = PropertyQuery {
                filter: Some(PropertyFilter::AtLeast(PropertyValue::Integer(low))),
                ..all
            };
            let equals_low = PropertyQuery {
                filter: Some(PropertyFilter::Equals(PropertyValue::Integer(low))),
                ..all
            };
            &&& finds(x, equals_low, id, v) <==> finds(x, at_most_low, id, v) && finds(
                x,
                at_least_low,
                id,
                v,
            )
            &&& finds(x, all, id, v) <==> finds(x, at_most_low, id, v) || finds(
                x,
                at_least_low,
                id,
                v,
            )
            &&& finds(x, at_most_low, id, v) ==> finds(x, at_most_high, id, v)
            &&& finds(x, at_most_low, id, v) <==> finds(x, all, id, v) && n <= low
        }),
{
    let v = ValueView::Integer(n);
    let all = PropertyQuery { key, filter: None, sort, limit };
    law_queries_find_what_they_ask_for(x, all, id, v);
    law_queries_find_what_they_ask_for(
        x,
        PropertyQuery {
            filter: Some(PropertyFilter::AtMost(PropertyValue::Integer(low))),
            ..all
        },
        id,
        v,
    );
    law_queries_find_what_they_ask_for(
        x,
        PropertyQuery {
            filter: Some(PropertyFilter::AtMost(PropertyValue::Integer(high))),
            ..all
        },
        id,
        v,
    );
    law_queries_find_what_they_ask_for(
        x,
        PropertyQuery {
            filter: Some(PropertyFilter::AtLeast(PropertyValue::Integer(low))),
            ..all
        },
        id,
        v,
    );
    law_queries_find_what_they_ask_for(
        x,
        PropertyQuery {
            filter: Some(PropertyFilter::Equals(PropertyValue::Integer(low))),
            ..all
        },
        id,
        v,
    );
}

/// A query is refused exactly where its key is blank, or where it asks for the order of nulls, lists
/// or structured values; that is a conflict.
pub proof fn law_queries_are_checked(query: PropertyQuery)
    ensures
        ({
            let unordered = match query.filter {
                Some(PropertyFilter::AtMost(v)) | Some(PropertyFilter::AtLeast(v)) => v is Null || v
                    is List || v is Structured,
                _ => false,
            };
            &&& query_fault(query) is Some <==> is_blank(query.key@) || unordered
            &&& query_fault(query) is Some ==> query_fault(query)->0 is Conflict
        }),
        query.limit == 0 ==> query_limit(query.limit) == 1,
        1 <= query.limit <= 100_000 ==> query_limit(query.limit) == query.limit,
        query.limit > 100_000 ==> query_limit(query.limit) == 100_000,
{
}

/// The kinds stand in the alphabetical order of their names.
pub proof fn law_kinds_are_ordered_by_name(a: PropertyValueKind, b: PropertyValueKind)
    ensures
        kind_rank(a) < kind_rank(b) <==> text_before(kind_name(a), kind_name(b)),
        kind_rank(a) == kind_rank(b) <==> a == b,
{
    reveal_strlit("null");
    reveal_strlit("boolean");
    reveal_strlit("integer");
    reveal_strlit("real");
    reveal_strlit("text");
    reveal_strlit("date");
    reveal_strlit("date_time");
    reveal_strlit("list");
    reveal_strlit("structured");
    let s = kind_name(a);
    let t = kind_name(b);
    lemma_text_before_irreflexive(s);
    reveal_with_fuel(text_before, 6);
    if s[0] == t[0] && a != b {
        assert(s.drop_first()[0] == s[1]);
        assert((a is Date && b is DateTime) || (a is DateTime && b is Date));
        let short = "date"@;
        let long = "date_time"@;
        assert(long =~= short + seq!['_'] + "time"@) by {
            reveal_strlit("time");
        }
        crate::basics::law_texts_are_ordered(short, '_', '_', "time"@, "time"@);
    }
}

/// What a query finds is shown in order: by the name of the kind and then by value, upwards or, where
/// that was asked for, downwards; with the same value by ID, upwards always. No Node is shown twice.
pub proof fn law_matches_are_ordered(x: IndexModel, query: PropertyQuery, i: int, j: int)
    requires
        x.nodes.dom().finite(),
        0 <= i < j < match_list(x, query).len(),
    ensures
        ({
            let (a, b) = if query.sort is Descending {
                (match_list(x, query)[j], match_list(x, query)[i])
            } else {
                (match_list(x, query)[i], match_list(x, query)[j])
            };
            &&& text_up_to(kind_name(kind_of(a.1)), kind_name(kind_of(b.1)))
            &&& match (a.1, b.1) {
                (ValueView::Integer(p), ValueView::Integer(q)) => p <= q,
                (ValueView::Boolean(p), ValueView::Boolean(q)) => p ==> q,
                (ValueView::Real(p), ValueView::Real(q)) => real_rank(p.bits) <= real_rank(q.bits),
                (ValueView::Text(p), ValueView::Text(q)) => text_up_to(p, q),
                (ValueView::Date(p), ValueView::Date(q)) => text_up_to(p, q),
                (ValueView::DateTime(p), ValueView::DateTime(q)) => text_up_to(p, q),
                (ValueView::Structured(p), ValueView::Structured(q)) => text_up_to(p, q),
                _ => true,
            }
        }),
        match_list(x, query)[i].1 == match_list(x, query)[j].1 ==> NodeId::before(
            match_list(x, query)[i].0,
            match_list(x, query)[j].0,
        ),
        match_list(x, query)[i].0 != match_list(x, query)[j].0,
{
    lemma_matches(x, query);
    let keys = in_order::<MatchKey>(match_set(x, query));
    let p = keys[i];
    let q = keys[j];
    assert(keys.contains(p) && keys.contains(q));
    assert(match_set(x, query).contains(p) && match_set(x, query).contains(q));
    assert(MatchKey::before(p, q));
    law_kinds_are_ordered_by_name(p.kind, q.kind);
    law_kinds_are_ordered_by_name(q.kind, p.kind);
    NodeId::before_irreflexive(p.node_id);
}

/// The links to a Node that the Index has, each as it is shown.
pub open spec fn shows_link(x: IndexModel, id: NodeId, e: IndexedRelationshipView) -> bool {
    &&& has_active(x, e.source)
    &&& e.target == Some(id)
    &&& e.unresolved_target is None
    &&& match e.provenance {
        RelationshipProvenance::CanonicalRecord => {
            &&& x.relationships.dom().contains(
                RelationshipView { source: e.source, key: e.relationship_key, target: id },
            )
            &&& e.source_kind is None
            &&& e.source_locator is None
            &&& e.parser is None
            &&& e.start_offset is None
            &&& e.end_offset is None
            &&& e.inverse_label == if x.relationship_definitions.dom().contains(
                e.relationship_key,
            ) {
                x.relationship_definitions[e.relationship_key].definition.inverse_label
            } else {
                None
            }
        },
        RelationshipProvenance::ContentDerived => {
            let key = DerivedKeyView {
                source: e.source,
                relationship_key: e.relationship_key,
                start_offset: e.start_offset->0,
                end_offset: e.end_offset->0,
                source_kind: e.source_kind->0,
                parser: e.parser->0,
            };
            &&& e.start_offset is Some && e.end_offset is Some && e.source_kind is Some && e.parser
                is Some
            &&& x.derived.dom().contains(key)
            &&& x.derived[key].target == Some(id)
            &&& e.source_locator == x.derived[key].source_locator
            &&& e.inverse_label == Some("linked from"@)
        },
    }
}

proof fn lemma_links(x: IndexModel, id: NodeId)
    requires
        x.relationships.dom().finite(),
        x.derived.dom().finite(),
    ensures
        all_links(x, id).finite(),
        canonical_links(x, id).finite(),
        derived_links(x, id).finite(),
{
    let c = canonical_links(x, id);
    let d = derived_links(x, id);
    let f = |r: RelationshipView|
        LinkView::Canonical { relationship_key: r.key, source: r.source };
    let g = |k: DerivedKeyView| LinkView::Derived(k);
    x.relationships.dom().lemma_map_finite(f);
    x.derived.dom().lemma_map_finite(g);
    assert(c.subset_of(x.relationships.dom().map(f))) by {
        assert forall|l: LinkView| c.contains(l) implies x.relationships.dom().map(f).contains(l) by {
            match l {
                LinkView::Canonical { relationship_key, source } => {
                    let r = RelationshipView { source, key: relationship_key, target: id };
                    assert(x.relationships.dom().contains(r));
                    assert(f(r) == l);
                },
                _ => {},
            }
        }
    }
    assert(d.subset_of(x.derived.dom().map(g))) by {
        assert forall|l: LinkView| d.contains(l) implies x.derived.dom().map(g).contains(l) by {
            match l {
                LinkView::Derived(k) => {
                    assert(x.derived.dom().contains(k));
                    assert(g(k) == l);
                },
                _ => {},
            }
        }
    }
    vstd::set_lib::lemma_len_subset(c, x.relationships.dom().map(f));
    vstd::set_lib::lemma_len_subset(d, x.derived.dom().map(g));
    assert(all_links(x, id) =~= c.union(d));
}

proof fn lemma_shown(x: IndexModel, id: NodeId, links: Set<LinkView>)
    requires
        links.finite(),
        links.subset_of(all_links(x, id)),
    ensures
        ({
            let keys = in_order::<LinkKey>(links);
            let shown = links_shown(x, id, keys);
            &&& shown.len() == links.len()
            &&& shown.no_duplicates()
            &&& forall|i: int|
                0 <= i < shown.len() ==> links.contains(#[trigger] keys[i]) && shows_link(
                    x,
                    id,
                    shown[i],
                )
            &&& forall|l: LinkView| #[trigger]
                links.contains(l) ==> keys.contains(l) && shown[keys.index_of(l)]
                    == crate::index::links::link_shown(x, id, l)
        }),
{
    lemma_in_order_lists::<LinkKey>(links);
    let keys = in_order::<LinkKey>(links);
    let shown = links_shown(x, id, keys);
    lemma_ascending_distinct::<LinkKey>(keys);
    assert forall|i: int, j: int| 0 <= i < shown.len() && 0 <= j < shown.len() && i
        != j implies shown[i] != shown[j] by {
        assert(keys[i] != keys[j]);
    }
    assert forall|i: int| 0 <= i < shown.len() implies links.contains(#[trigger] keys[i])
        && shows_link(x, id, shown[i]) by {
        assert(keys.contains(keys[i]));
        assert(all_links(x, id).contains(keys[i]));
    }
}

/// Every backlink of a Node comes from an active Node and is a Relationship of the Index that leads to
/// the Node: of a tombstoned Node, or one that is gone, none is shown. And every Relationship from an
/// active Node to the Node, canonical or found in content, is shown exactly once, the canonical ones
/// first.
pub proof fn law_backlinks_lead_from_active_nodes(x: IndexModel, id: NodeId)
    requires
        x.relationships.dom().finite(),
        x.derived.dom().finite(),
    ensures
        ({
            let list = backlink_list(x, id);
            &&& forall|i: int| 0 <= i < list.len() ==> shows_link(x, id, #[trigger] list[i])
            &&& list.no_duplicates()
            &&& forall|r: RelationshipView| #[trigger]
                x.relationships.dom().contains(r) && r.target == id && has_active(x, r.source)
                    ==> shows_canonical(list, r)
            &&& forall|k: DerivedKeyView| #[trigger]
                x.derived.dom().contains(k) && x.derived[k].target == Some(id) && has_active(
                    x,
                    k.source,
                ) ==> shows_derived(list, k)
            &&& forall|i: int, j: int|
                0 <= i < j < list.len() && (#[trigger] list[i]).provenance is ContentDerived ==> (
                #[trigger] list[j]).provenance is ContentDerived
        }),
{
    lemma_links(x, id);
    let c = canonical_links(x, id);
    let d = derived_links(x, id);
    lemma_shown(x, id, c);
    lemma_shown(x, id, d);
    let a = links_shown(x, id, in_order::<LinkKey>(c));
    let b = links_shown(x, id, in_order::<LinkKey>(d));
    let list = backlink_list(x, id);
    assert forall|i: int| 0 <= i < list.len() implies shows_link(x, id, #[trigger] list[i])
        && (list[i].provenance is ContentDerived <==> i >= a.len()) by {
        if i < a.len() {
            assert(list[i] == a[i]);
            assert(c.contains(in_order::<LinkKey>(c)[i]));
        } else {
            assert(list[i] == b[i - a.len()]);
            assert(d.contains(in_order::<LinkKey>(d)[i - a.len()]));
        }
    }
    assert forall|i: int, j: int| 0 <= i < list.len() && 0 <= j < list.len() && i
        != j implies list[i] != list[j] by {
        assert(list[i].provenance is ContentDerived <==> i >= a.len());
        assert(list[j].provenance is ContentDerived <==> j >= a.len());
        if i < a.len() && j < a.len() {
            assert(a[i] != a[j]);
        } else if i >= a.len() && j >= a.len() {
            assert(b[i - a.len()] != b[j - a.len()]);
        }
    }
    assert forall|r: RelationshipView| #[trigger] x.relationships.dom().contains(r) && r.target == id
        && has_active(x, r.source) implies shows_canonical(list, r) by {
        let l = LinkView::Canonical { relationship_key: r.key, source: r.source };
        assert(r == RelationshipView { source: r.source, key: r.key, target: id });
        assert(c.contains(l));
        let i = in_order::<LinkKey>(c).index_of(l);
        assert(list[i] == a[i]);
        assert(list[i].source == r.source);
    }
    assert forall|k: DerivedKeyView| #[trigger] x.derived.dom().contains(k) && x.derived[k].target
        == Some(id) && has_active(x, k.source) implies shows_derived(list, k) by {
        let l = LinkView::Derived(k);
        assert(d.contains(l));
        let i = in_order::<LinkKey>(d).index_of(l);
        assert(list[a.len() + i] == b[i]);
        assert(list[a.len() + i].source == k.source);
    }
}

/// Whether a list of links shows a canonical Relationship.
pub open spec fn shows_canonical(list: Seq<IndexedRelationshipView>, r: RelationshipView) -> bool {
    exists|i: int|
        0 <= i < list.len() && (#[trigger] list[i]).source == r.source && list[i].relationship_key
            == r.key && list[i].provenance is CanonicalRecord
}

/// Whether a list of links shows a Relationship found in content.
pub open spec fn shows_derived(list: Seq<IndexedRelationshipView>, k: DerivedKeyView) -> bool {
    exists|i: int|
        0 <= i < list.len() && (#[trigger] list[i]).source == k.source && list[i].relationship_key
            == k.relationship_key && list[i].start_offset == Some(k.start_offset)
            && list[i].end_offset == Some(k.end_offset) && list[i].source_kind == Some(
            k.source_kind,
        ) && list[i].parser == Some(k.parser) && list[i].provenance is ContentDerived
}

/// A page of backlinks shows of the links to a Node only such as come from active Nodes. All pages
/// together show as many as the whole list, each once: by key, with the same key by source, and with
/// both the same the canonical one first.
pub proof fn law_backlink_pages_show_the_same(x: IndexModel, id: NodeId, page: ReadPage)
    requires
        x.relationships.dom().finite(),
        x.derived.dom().finite(),
    ensures
        ({
            let keys = in_order::<LinkKey>(all_links(x, id));
            let whole = links_shown(x, id, keys);
            let shown = links_shown(x, id, page_of(keys, page));
            &&& shown == page_of(whole, page)
            &&& whole.len() == backlink_list(x, id).len()
            &&& whole.no_duplicates()
            &&& forall|i: int| 0 <= i < shown.len() ==> shows_link(x, id, #[trigger] shown[i])
            &&& forall|i: int| 0 <= i < whole.len() ==> shows_link(x, id, #[trigger] whole[i])
            &&& forall|r: RelationshipView| #[trigger]
                x.relationships.dom().contains(r) && r.target == id && has_active(x, r.source)
                    ==> shows_canonical(whole, r)
            &&& forall|k: DerivedKeyView| #[trigger]
                x.derived.dom().contains(k) && x.derived[k].target == Some(id) && has_active(
                    x,
                    k.source,
                ) ==> shows_derived(whole, k)
            &&& forall|i: int, j: int|
                0 <= i < j < whole.len() ==> link_stands_before(
                    #[trigger] whole[i],
                    #[trigger] whole[j],
                )
        }),
{
    lemma_links(x, id);
    let all = all_links(x, id);
    lemma_shown(x, id, all);
    let c = canonical_links(x, id);
    let d = derived_links(x, id);
    lemma_shown(x, id, c);
    lemma_shown(x, id, d);
    assert(all =~= c.union(d));
    assert(c.disjoint(d));
    vstd::set_lib::lemma_set_disjoint_lens(c, d);
    let keys = in_order::<LinkKey>(all);
    let whole = links_shown(x, id, keys);
    let shown = links_shown(x, id, page_of(keys, page));
    assert(shown =~= page_of(whole, page));
    assert forall|i: int| 0 <= i < whole.len() implies shows_link(x, id, #[trigger] whole[i]) by {
        assert(all.contains(keys[i]));
    }
    assert forall|i: int| 0 <= i < shown.len() implies shows_link(x, id, #[trigger] shown[i]) by {
        let from = crate::api::lesser(page.offset as nat, whole.len());
        assert(shown[i] == whole[from + i]);
    }
    lemma_in_order_lists::<LinkKey>(all);
    assert forall|i: int, j: int| 0 <= i < j < whole.len() implies link_stands_before(
        #[trigger] whole[i],
        #[trigger] whole[j],
    ) by {
        assert(LinkKey::before(keys[i], keys[j]));
    }
    assert forall|r: RelationshipView| #[trigger] x.relationships.dom().contains(r) && r.target == id
        && has_active(x, r.source) implies shows_canonical(whole, r) by {
        let l = LinkView::Canonical { relationship_key: r.key, source: r.source };
        assert(r == RelationshipView { source: r.source, key: r.key, target: id });
        assert(all.contains(l));
        assert(whole[keys.index_of(l)].source == r.source);
    }
    assert forall|k: DerivedKeyView| #[trigger] x.derived.dom().contains(k) && x.derived[k].target
        == Some(id) && has_active(x, k.source) implies shows_derived(whole, k) by {
        let l = LinkView::Derived(k);
        assert(all.contains(l));
        assert(whole[keys.index_of(l)].source == k.source);
    }
}

/// Whether one link stands before another: by key, with the same key by source, and with both the
/// same the canonical one first, those found in content by where they start.
pub open spec fn link_stands_before(
    a: IndexedRelationshipView,
    b: IndexedRelationshipView,
) -> bool {
    ||| text_before(a.relationship_key, b.relationship_key)
    ||| a.relationship_key == b.relationship_key && NodeId::before(a.source, b.source)
    ||| a.relationship_key == b.relationship_key && a.source == b.source && (
    a.provenance is CanonicalRecord || (b.provenance is ContentDerived && a.start_offset->0
        <= b.start_offset->0))
}

/// A filter looks in the column that its kind of value fills.
pub proof fn law_filters_look_in_the_filled_column(v: ValueView)
    ensures
        ({
            let row = encoded(v);
            match column_for(kind_of(v)) {
                ValueColumn::Text => row.text is Some || v is Null,
                ValueColumn::Integer => row.integer is Some,
                ValueColumn::Real => row.real is Some,
                ValueColumn::Json => row.json is Some,
            }
        }),
{
}

} // verus!
