//! Queries for the values that Nodes have for a Property key.
use vstd::prelude::*;
use crate::api::{
    page_fault, window, window_bounds, clamped_limit, IndexedPropertyMatch, PropertyFilter,
    PropertyQuery, PropertySort, ReadPage,
};
use crate::error::{conflict, CoreError, ErrorView};
use crate::id::NodeId;
use crate::index::model::{IndexModel, IndexStore};
use crate::node::LifecycleState;
use crate::record_store::model::PropertyRow;
use crate::table::{in_order, lemma_next_is_new, Table, TableKey, TableRow};
use crate::text::{
    blank, is_blank, lemma_text_before_irreflexive, lemma_text_before_total,
    lemma_text_before_transitive, str_before, text_before,
};
use crate::value::{
    carrier_of, kind_of, real_rank, PropertyValue, PropertyValueKind, RealNumber, ValueView,
};

verus! {

/// The columns that hold values.
#[derive(Debug, Clone, Copy, PartialEq, Eq, Structural)]
pub enum ValueColumn {
    Text,
    Integer,
    Real,
    Json,
}

/// How a filter compares.
#[derive(Debug, Clone, Copy, PartialEq, Eq, Structural)]
pub enum FilterOperator {
    Equal,
    AtLeast,
    AtMost,
}

/// What the column of a value holds.
#[derive(Debug)]
pub enum ColumnValue {
    Nothing,
    Integer(i64),
    Real(RealNumber),
    Text(String),
}

/// What the column of a value holds, as far as columns are compared: reals by their place among
/// the reals.
pub enum ColumnView {
    Nothing,
    Integer(i64),
    Real(int),
    Text(Seq<char>),
}

impl View for ColumnValue {
    type V = ColumnView;

    open spec fn view(&self) -> ColumnView {
        match *self {
            ColumnValue::Nothing => ColumnView::Nothing,
            ColumnValue::Integer(n) => ColumnView::Integer(n),
            ColumnValue::Real(x) => ColumnView::Real(real_rank(x.bits)),
            ColumnValue::Text(t) => ColumnView::Text(t@),
        }
    }
}

impl Clone for ColumnValue {
    fn clone(&self) -> (r: ColumnValue)
        ensures
            r@ == self@,
    {
        match self {
            ColumnValue::Nothing => ColumnValue::Nothing,
            ColumnValue::Integer(n) => ColumnValue::Integer(*n),
            ColumnValue::Real(x) => ColumnValue::Real(x.clone()),
            ColumnValue::Text(t) => ColumnValue::Text(t.clone()),
        }
    }
}

/// What the column of a value holds: nothing for null, a number for booleans, integers and reals,
/// the text of texts, dates and date-times, the JSON carrier of lists and structured values.
pub open spec fn column_of(v: ValueView) -> ColumnView {
    match v {
        ValueView::Null => ColumnView::Nothing,
        ValueView::Boolean(b) => ColumnView::Integer(
            if b {
                1
            } else {
                0
            },
        ),
        ValueView::Integer(n) => ColumnView::Integer(n),
        ValueView::Real(x) => ColumnView::Real(real_rank(x.bits)),
        ValueView::Text(t) => ColumnView::Text(t),
        ValueView::Date(t) => ColumnView::Text(t),
        ValueView::DateTime(t) => ColumnView::Text(t),
        ValueView::List(_) => ColumnView::Text(carrier_of(v)->0),
        ValueView::Structured(_) => ColumnView::Text(carrier_of(v)->0),
    }
}

/// The order of what columns hold: nothing, then integers, then reals, then texts, each in their
/// own order.
pub open spec fn column_before(a: ColumnView, b: ColumnView) -> bool {
    match (a, b) {
        (ColumnView::Integer(m), ColumnView::Integer(n)) => m < n,
        (ColumnView::Real(x), ColumnView::Real(y)) => x < y,
        (ColumnView::Text(s), ColumnView::Text(t)) => text_before(s, t),
        _ => column_rank(a) < column_rank(b),
    }
}

pub open spec fn column_rank(a: ColumnView) -> int {
    match a {
        ColumnView::Nothing => 0,
        ColumnView::Integer(_) => 1,
        ColumnView::Real(_) => 2,
        ColumnView::Text(_) => 3,
    }
}

proof fn lemma_column_irreflexive(a: ColumnView)
    ensures
        !column_before(a, a),
{
    match a {
        ColumnView::Text(t) => lemma_text_before_irreflexive(t),
        _ => {},
    }
}

proof fn lemma_column_transitive(a: ColumnView, b: ColumnView, c: ColumnView)
    requires
        column_before(a, b),
        column_before(b, c),
    ensures
        column_before(a, c),
{
    match (a, b, c) {
        (ColumnView::Text(s), ColumnView::Text(t), ColumnView::Text(u)) =>
            lemma_text_before_transitive(s, t, u),
        _ => {},
    }
}

proof fn lemma_column_total(a: ColumnView, b: ColumnView)
    ensures
        a == b || column_before(a, b) || column_before(b, a),
{
    match (a, b) {
        (ColumnView::Text(s), ColumnView::Text(t)) => lemma_text_before_total(s, t),
        _ => {},
    }
}

fn column_place(a: &ColumnValue) -> (r: u8)
    ensures
        r == column_rank(a@),
{
    match a {
        ColumnValue::Nothing => 0,
        ColumnValue::Integer(_) => 1,
        ColumnValue::Real(_) => 2,
        ColumnValue::Text(_) => 3,
    }
}

fn column_is_before(a: &ColumnValue, b: &ColumnValue) -> (r: bool)
    ensures
        r == column_before(a@, b@),
{
    match (a, b) {
        (ColumnValue::Integer(m), ColumnValue::Integer(n)) => *m < *n,
        (ColumnValue::Real(x), ColumnValue::Real(y)) => x.is_less(y),
        (ColumnValue::Text(s), ColumnValue::Text(t)) => str_before(s.as_str(), t.as_str()),
        _ => column_place(a) < column_place(b),
    }
}

fn column_is_same(a: &ColumnValue, b: &ColumnValue) -> (r: bool)
    ensures
        r == (a@ == b@),
{
    proof {
        lemma_column_total(a@, b@);
        lemma_column_irreflexive(a@);
    }
    !column_is_before(a, b) && !column_is_before(b, a)
}

/// The kinds in the alphabetical order of their names.
pub open spec fn kind_rank(kind: PropertyValueKind) -> int {
    match kind {
        PropertyValueKind::Boolean => 0,
        PropertyValueKind::Date => 1,
        PropertyValueKind::DateTime => 2,
        PropertyValueKind::Integer => 3,
        PropertyValueKind::List => 4,
        PropertyValueKind::Null => 5,
        PropertyValueKind::Real => 6,
        PropertyValueKind::Structured => 7,
        PropertyValueKind::Text => 8,
    }
}

fn kind_place(kind: PropertyValueKind) -> (r: u8)
    ensures
        r == kind_rank(kind),
{
    match kind {
        PropertyValueKind::Boolean => 0,
        PropertyValueKind::Date => 1,
        PropertyValueKind::DateTime => 2,
        PropertyValueKind::Integer => 3,
        PropertyValueKind::List => 4,
        PropertyValueKind::Null => 5,
        PropertyValueKind::Real => 6,
        PropertyValueKind::Structured => 7,
        PropertyValueKind::Text => 8,
    }
}

/// A match of a Property query, in the order that the query asks for.
pub struct MatchKey {
    pub descending: bool,
    pub kind: PropertyValueKind,
    pub column: ColumnValue,
    pub node_id: NodeId,
}

pub struct MatchView {
    pub descending: bool,
    pub kind: PropertyValueKind,
    pub column: ColumnView,
    pub node_id: NodeId,
}

impl View for MatchKey {
    type V = MatchView;

    open spec fn view(&self) -> MatchView {
        MatchView {
            descending: self.descending,
            kind: self.kind,
            column: self.column@,
            node_id: self.node_id,
        }
    }
}

/// Matches stand by kind, then by value, ascending or descending, and then by Node ID.
impl TableKey for MatchKey {
    open spec fn before(a: MatchView, b: MatchView) -> bool {
        if a.descending != b.descending {
            b.descending
        } else if a.kind != b.kind {
            if a.descending {
                kind_rank(b.kind) < kind_rank(a.kind)
            } else {
                kind_rank(a.kind) < kind_rank(b.kind)
            }
        } else if a.column != b.column {
            if a.descending {
                column_before(b.column, a.column)
            } else {
                column_before(a.column, b.column)
            }
        } else {
            NodeId::before(a.node_id, b.node_id)
        }
    }

    proof fn before_irreflexive(a: MatchView) {
        NodeId::before_irreflexive(a.node_id);
    }

    proof fn before_transitive(a: MatchView, b: MatchView, c: MatchView) {
        if a.descending == b.descending && b.descending == c.descending && a.kind == b.kind
            && b.kind == c.kind {
            if a.column == b.column && b.column == c.column {
                NodeId::before_transitive(a.node_id, b.node_id, c.node_id);
            } else if a.column != b.column && b.column != c.column {
                if a.descending {
                    lemma_column_transitive(c.column, b.column, a.column);
                } else {
                    lemma_column_transitive(a.column, b.column, c.column);
                }
                lemma_column_irreflexive(a.column);
            }
        }
    }

    proof fn before_total(a: MatchView, b: MatchView) {
        lemma_column_total(a.column, b.column);
        NodeId::before_total(a.node_id, b.node_id);
    }

    fn is_before(&self, other: &MatchKey) -> (r: bool) {
        if self.descending != other.descending {
            other.descending
        } else if self.kind != other.kind {
            if self.descending {
                kind_place(other.kind) < kind_place(self.kind)
            } else {
                kind_place(self.kind) < kind_place(other.kind)
            }
        } else if !column_is_same(&self.column, &other.column) {
            if self.descending {
                column_is_before(&other.column, &self.column)
            } else {
                column_is_before(&self.column, &other.column)
            }
        } else {
            self.node_id.is_before(&other.node_id)
        }
    }

    fn copy_key(&self) -> (r: MatchKey) {
        MatchKey {
            descending: self.descending,
            kind: self.kind,
            column: self.column.clone(),
            node_id: self.node_id,
        }
    }
}

/// How a filter compares.
pub open spec fn operator_of(filter: PropertyFilter) -> FilterOperator {
    match filter {
        PropertyFilter::Equals(_) => FilterOperator::Equal,
        PropertyFilter::AtLeast(_) => FilterOperator::AtLeast,
        PropertyFilter::AtMost(_) => FilterOperator::AtMost,
    }
}

/// What a filter compares with.
pub open spec fn operand_of(filter: PropertyFilter) -> ValueView {
    match filter {
        PropertyFilter::Equals(value) => value@,
        PropertyFilter::AtLeast(value) => value@,
        PropertyFilter::AtMost(value) => value@,
    }
}

/// Why a filter is refused: nulls, lists and structured values can only be asked for equality.
pub open spec fn filter_fault(filter: PropertyFilter) -> Option<ErrorView> {
    if operator_of(filter) is Equal {
        None
    } else {
        match operand_of(filter) {
            ValueView::Null => Some(
                ErrorView::Conflict("null Properties support equality filtering only"@),
            ),
            ValueView::List(_) => Some(
                ErrorView::Conflict("list Properties support equality filtering only"@),
            ),
            ValueView::Structured(_) => Some(
                ErrorView::Conflict("structured Properties support equality filtering only"@),
            ),
            _ => None,
        }
    }
}

/// The column that holds the values of a kind.
pub open spec fn column_for(kind: PropertyValueKind) -> ValueColumn {
    match kind {
        PropertyValueKind::Null => ValueColumn::Text,
        PropertyValueKind::Boolean => ValueColumn::Integer,
        PropertyValueKind::Integer => ValueColumn::Integer,
        PropertyValueKind::Real => ValueColumn::Real,
        PropertyValueKind::Text => ValueColumn::Text,
        PropertyValueKind::Date => ValueColumn::Text,
        PropertyValueKind::DateTime => ValueColumn::Text,
        PropertyValueKind::List => ValueColumn::Json,
        PropertyValueKind::Structured => ValueColumn::Json,
    }
}

/// Whether the bits of a double are those of no number at all.
pub open spec fn nan_bits(bits: u64) -> bool {
    (bits / 0x10_0000_0000_0000) % 2048 == 2047 && bits % 0x10_0000_0000_0000 != 0
}

/// Whether what a column holds compares as asked.
pub open spec fn compares(held: ColumnView, operator: FilterOperator, wanted: ColumnView) -> bool {
    match operator {
        FilterOperator::Equal => held == wanted,
        FilterOperator::AtLeast => !column_before(held, wanted),
        FilterOperator::AtMost => !column_before(wanted, held),
    }
}

/// Whether a filter accepts a value: one of the same kind that compares as asked. Nothing compares
/// with what is no number.
pub open spec fn accepts(filter: Option<PropertyFilter>, v: ValueView) -> bool {
    match filter {
        None => true,
        Some(f) => {
            &&& kind_of(v) == kind_of(operand_of(f))
            &&& match operand_of(f) {
                ValueView::Real(x) => !nan_bits(x.bits),
                _ => true,
            }
            &&& compares(column_of(v), operator_of(f), column_of(operand_of(f)))
        },
    }
}

/// The parts of a filter: the kind and the column that it is about, how it compares, and with what.
#[derive(Debug)]
pub struct FilterParts {
    pub kind: PropertyValueKind,
    pub column: ValueColumn,
    pub operator: FilterOperator,
    pub value: Option<ColumnValue>,
}

/// What the column of a value holds.
fn column_value(value: &PropertyValue) -> (r: ColumnValue)
    ensures
        r@ == column_of(value@),
        match value@ {
            ValueView::Real(x) => r is Real && r->Real_0.bits == x.bits,
            ValueView::Null => r is Nothing,
            _ => !(r is Real) && !(r is Nothing),
        },
{
    match value {
        PropertyValue::Null => ColumnValue::Nothing,
        PropertyValue::Boolean(b) => if *b {
            ColumnValue::Integer(1)
        } else {
            ColumnValue::Integer(0)
        },
        PropertyValue::Integer(n) => ColumnValue::Integer(*n),
        PropertyValue::Real(x) => ColumnValue::Real(x.clone()),
        PropertyValue::Text(t) => ColumnValue::Text(t.clone()),
        PropertyValue::Date(t) => ColumnValue::Text(t.clone()),
        PropertyValue::DateTime(t) => ColumnValue::Text(t.clone()),
        PropertyValue::List(_) | PropertyValue::Structured(_) => match value.canonical_json() {
            Some(text) => ColumnValue::Text(text),
            None => ColumnValue::Nothing,
        },
    }
}

/// Takes a filter apart, and refuses one that asks for the order of values that have none.
pub fn property_filter_parts(filter: &PropertyFilter) -> (r: Result<FilterParts, CoreError>)
    ensures
        match r {
            Ok(parts) => {
                &&& filter_fault(*filter) is None
                &&& parts.kind == kind_of(operand_of(*filter))
                &&& parts.column == column_for(parts.kind)
                &&& parts.operator == operator_of(*filter)
                &&& match parts.value {
                    None => parts.kind is Null,
                    Some(value) => {
                        &&& !(parts.kind is Null)
                        &&& value@ == column_of(operand_of(*filter))
                        &&& match operand_of(*filter) {
                            ValueView::Real(x) => value is Real && value->Real_0.bits == x.bits,
                            _ => !(value is Real),
                        }
                    },
                }
            },
            Err(e) => filter_fault(*filter) == Some(e@),
        },
{
    let (operator, value) = match filter {
        PropertyFilter::Equals(value) => (FilterOperator::Equal, value),
        PropertyFilter::AtLeast(value) => (FilterOperator::AtLeast, value),
        PropertyFilter::AtMost(value) => (FilterOperator::AtMost, value),
    };
    let kind = value.kind();
    if operator != FilterOperator::Equal {
        match kind {
            PropertyValueKind::Null => {
                return Err(conflict("null Properties support equality filtering only"));
            },
            PropertyValueKind::List => {
                return Err(conflict("list Properties support equality filtering only"));
            },
            PropertyValueKind::Structured => {
                return Err(conflict("structured Properties support equality filtering only"));
            },
            _ => {},
        }
    }
    let column = match kind {
        PropertyValueKind::Null => ValueColumn::Text,
        PropertyValueKind::Boolean => ValueColumn::Integer,
        PropertyValueKind::Integer => ValueColumn::Integer,
        PropertyValueKind::Real => ValueColumn::Real,
        PropertyValueKind::Text => ValueColumn::Text,
        PropertyValueKind::Date => ValueColumn::Text,
        PropertyValueKind::DateTime => ValueColumn::Text,
        PropertyValueKind::List => ValueColumn::Json,
        PropertyValueKind::Structured => ValueColumn::Json,
    };
    let held = column_value(value);
    let operand = match held {
        ColumnValue::Nothing => None,
        other => Some(other),
    };
    Ok(FilterParts { kind, column, operator, value: operand })
}

fn is_nan(x: &RealNumber) -> (r: bool)
    ensures
        r == nan_bits(x.bits),
{
    (x.bits / 0x10_0000_0000_0000) % 2048 == 2047 && x.bits % 0x10_0000_0000_0000 != 0
}

/// Whether a value passes a filter that was taken apart.
fn passes(parts: &Option<FilterParts>, value: &PropertyValue, Ghost(filter): Ghost<
    Option<PropertyFilter>,
>) -> (r: bool)
    requires
        match filter {
            None => *parts is None,
            Some(f) => {
                &&& *parts is Some
                &&& parts->0.kind == kind_of(operand_of(f))
                &&& parts->0.operator == operator_of(f)
                &&& filter_fault(f) is None
                &&& match parts->0.value {
                    None => parts->0.kind is Null,
                    Some(v) => {
                        &&& !(parts->0.kind is Null)
                        &&& v@ == column_of(operand_of(f))
                        &&& match operand_of(f) {
                            ValueView::Real(x) => v is Real && v->Real_0.bits == x.bits,
                            _ => !(v is Real),
                        }
                    },
                }
            },
        },
    ensures
        r == accepts(filter, value@),
{
    match parts {
        None => true,
        Some(parts) => {
            if value.kind() != parts.kind {
                return false;
            }
            match &parts.value {
                None => true,
                Some(wanted) => {
                    let no_number = match wanted {
                        ColumnValue::Real(x) => is_nan(x),
                        _ => false,
                    };
                    if no_number {
                        return false;
                    }
                    let held = column_value(value);
                    match parts.operator {
                        FilterOperator::Equal => column_is_same(&held, wanted),
                        FilterOperator::AtLeast => !column_is_before(&held, wanted),
                        FilterOperator::AtMost => !column_is_before(wanted, &held),
                    }
                },
            }
        },
    }
}

/// The place of the value that a Node has for a key.
pub open spec fn match_key(x: IndexModel, query: PropertyQuery, id: NodeId) -> MatchView {
    let value = x.nodes[id].properties[query.key@].value;
    MatchView {
        descending: query.sort is Descending,
        kind: kind_of(value),
        column: column_of(value),
        node_id: id,
    }
}

/// Whether a Node is active and has a value for the key that the filter accepts.
pub open spec fn node_matches(x: IndexModel, query: PropertyQuery, id: NodeId) -> bool {
    &&& x.active(id)
    &&& x.nodes[id].properties.dom().contains(query.key@)
    &&& accepts(query.filter, x.nodes[id].properties[query.key@].value)
}

/// The matches of a query, each at its place.
pub open spec fn match_set(x: IndexModel, query: PropertyQuery) -> Set<MatchView> {
    Set::new(
        |k: MatchView| node_matches(x, query, k.node_id) && k == match_key(x, query, k.node_id),
    )
}

/// The matches of a query in the order that it asks for: Nodes and their values.
pub open spec fn match_list(x: IndexModel, query: PropertyQuery) -> Seq<(NodeId, ValueView)> {
    let keys = in_order::<MatchKey>(match_set(x, query));
    Seq::new(
        keys.len(),
        |i: int| (keys[i].node_id, x.nodes[keys[i].node_id].properties[query.key@].value),
    )
}

/// Nodes and their values, the values taken by their view.
pub open spec fn matches_view(items: Seq<IndexedPropertyMatch>) -> Seq<(NodeId, ValueView)> {
    Seq::new(items.len(), |i: int| (items[i].node_id, items[i].value@))
}

/// Why a query is refused.
pub open spec fn query_fault(query: PropertyQuery) -> Option<ErrorView> {
    if is_blank(query.key@) {
        Some(ErrorView::Conflict("an indexed Property query requires a non-empty key"@))
    } else {
        match query.filter {
            Some(filter) => filter_fault(filter),
            None => None,
        }
    }
}

/// How many matches a query without a page shows at most.
pub open spec fn query_limit(limit: usize) -> nat {
    if limit < 1 {
        1
    } else if limit > 100_000 {
        100_000
    } else {
        limit as nat
    }
}

impl IndexStore {
    /// At most `limit` matches of a query from `offset` on.
    pub fn query_properties_window(&self, query: &PropertyQuery, limit: usize, offset: u64) -> (r:
        Result<Vec<IndexedPropertyMatch>, CoreError>)
        requires
            self.wf(),
        ensures
            match r {
                Ok(items) => query_fault(*query) is None && matches_view(items@) == window(
                    match_list(self@, *query),
                    offset as nat,
                    limit as nat,
                ),
                Err(e) => query_fault(*query) == Some(e@),
            },
    {
        if blank(query.key.as_str()) {
            return Err(conflict("an indexed Property query requires a non-empty key"));
        }
        let parts = match &query.filter {
            None => None,
            Some(filter) => match property_filter_parts(filter) {
                Err(e) => return Err(e),
                Ok(parts) => Some(parts),
            },
        };
        let descending = query.sort == PropertySort::Descending;
        let nodes = &self.nodes;
        let ghost x = self@;
        let ghost q = *query;
        let mut found: Table<MatchKey, PropertyRow> = Table::new();
        let mut i: usize = 0;
        while i < nodes.len()
            invariant
                self.wf(),
                nodes == &self.nodes,
                x == self@,
                q == *query,
                descending == (q.sort is Descending),
                query_fault(q) is None,
                match q.filter {
                    None => parts is None,
                    Some(f) => {
                        &&& parts is Some
                        &&& parts->0.kind == kind_of(operand_of(f))
                        &&& parts->0.operator == operator_of(f)
                        &&& filter_fault(f) is None
                        &&& match parts->0.value {
                            None => parts->0.kind is Null,
                            Some(v) => {
                                &&& !(parts->0.kind is Null)
                                &&& v@ == column_of(operand_of(f))
                                &&& match operand_of(f) {
                                    ValueView::Real(n) => v is Real && v->Real_0.bits == n.bits,
                                    _ => !(v is Real),
                                }
                            },
                        }
                    },
                },
                found.wf(),
                i <= nodes.keys().len(),
                forall|k: MatchView| #[trigger]
                    found@.dom().contains(k) <==> match_set(x, q).contains(k)
                        && nodes.keys().subrange(0, i as int).contains(k.node_id),
                forall|k: MatchView| #[trigger]
                    found@.dom().contains(k) ==> found@[k].value
                        == x.nodes[k.node_id].properties[q.key@].value,
            decreases nodes.keys().len() - i,
        {
            proof {
                nodes.lemma_view();
                lemma_next_is_new::<NodeId>(nodes.keys(), i as int);
            }
            let id = *nodes.key_at(i);
            let row = nodes.row_at(i);
            let ghost before = found@;
            let ghost mut added = false;
            if row.lifecycle_state == LifecycleState::Active {
                match row.properties.get(&query.key) {
                    None => {},
                    Some(property) => {
                        if passes(&parts, &property.value, Ghost(query.filter)) {
                            let key = MatchKey {
                                descending,
                                kind: property.value.kind(),
                                column: column_value(&property.value),
                                node_id: id,
                            };
                            proof {
                                assert(key@ == match_key(x, q, id));
                                added = true;
                            }
                            found.insert(key, property.copy_row());
                        }
                    },
                }
            }
            proof {
                assert(added == node_matches(x, q, id));
                assert forall|k: MatchView| #[trigger]
                    found@.dom().contains(k) <==> match_set(x, q).contains(k)
                        && nodes.keys().subrange(0, i + 1).contains(k.node_id) by {
                    if k.node_id == id {
                        assert(!before.dom().contains(k));
                    }
                }
            }
            i = i + 1;
        }
        proof {
            nodes.lemma_view();
            found.lemma_view();
            assert(nodes.keys().subrange(0, i as int) =~= nodes.keys());
            assert(found@.dom() =~= match_set(x, q));
        }
        let (from, to) = window_bounds(offset, limit, found.len());
        let mut items: Vec<IndexedPropertyMatch> = Vec::new();
        let mut j: usize = from;
        while j < to
            invariant
                found.wf(),
                from <= j <= to <= found.keys().len(),
                items@.len() == j - from,
                forall|k: int|
                    0 <= k < items@.len() ==> (#[trigger] items@[k]).node_id == found.keys()[from
                        + k].node_id && items@[k].value@ == found@[found.keys()[from + k]].value,
            decreases to - j,
        {
            let value = found.row_at(j).value.clone();
            items.push(IndexedPropertyMatch { node_id: found.key_at(j).node_id, value });
            j = j + 1;
        }
        proof {
            found.lemma_view();
            let list = match_list(x, q);
            assert(matches_view(items@) =~= list.subrange(from as int, to as int)) by {
                assert forall|k: int| 0 <= k < items@.len() implies matches_view(items@)[k]
                    == list[from + k] by {
                    assert(found@.dom().contains(found.keys()[from + k]));
                }
            }
        }
        Ok(items)
    }

    /// The matches of a query, at most as many as it asks for.
    pub fn query_properties(&self, query: &PropertyQuery) -> (r: Result<
        Vec<IndexedPropertyMatch>,
        CoreError,
    >)
        requires
            self.wf(),
        ensures
            match r {
                Ok(items) => query_fault(*query) is None && matches_view(items@) == window(
                    match_list(self@, *query),
                    0,
                    query_limit(query.limit),
                ),
                Err(e) => query_fault(*query) == Some(e@),
            },
    {
        let limit: usize = if query.limit < 1 {
            1
        } else if query.limit > 100_000 {
            100_000
        } else {
            query.limit
        };
        self.query_properties_window(query, limit, 0)
    }

    /// A window of the matches of a query.
    pub fn query_properties_page(&self, query: &PropertyQuery, page: ReadPage) -> (r: Result<
        Vec<IndexedPropertyMatch>,
        CoreError,
    >)
        requires
            self.wf(),
        ensures
            match r {
                Ok(items) => page_fault(page) is None && query_fault(*query) is None
                    && matches_view(items@) == window(
                    match_list(self@, *query),
                    page.offset as nat,
                    clamped_limit(page.limit),
                ),
                Err(e) => if page_fault(page) is Some {
                    page_fault(page) == Some(e@)
                } else {
                    query_fault(*query) == Some(e@)
                },
            },
    {
        match page.sql_offset() {
            Err(e) => Err(e),
            Ok(_) => self.query_properties_window(query, page.sql_limit() as usize, page.offset),
        }
    }
}

} // verus!
