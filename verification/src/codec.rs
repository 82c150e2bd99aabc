//! How rows of the stores write values, states, kinds and changes.
use vstd::prelude::*;
use crate::api::{optional_text, DefinitionState};
use crate::error::{corrupt, message_of, CoreError, ErrorView};
use crate::id::{id_fault, id_of, id_read, NodeId};
use crate::node::LifecycleState;
use crate::record_store::model::{ChangeKind, ChangeRow, ChangeView};
use crate::record_store::projection::is_relationship_change;
use crate::text::{join2, join3, same_text};
use crate::value::{
    carrier_of, json_canonical, json_string, json_string_of, kind_name, kind_of, kind_to_db,
    value_fault, values_view, whole_numbers, JsonText, PropertyValue, PropertyValueKind,
    RealNumber, RealView, ValueView,
};

verus! {

/// A value as a row holds it: its kind, and one column at most.
#[derive(Debug)]
pub struct EncodedValue {
    pub kind: String,
    pub text: Option<String>,
    pub integer: Option<i64>,
    pub real: Option<RealNumber>,
    pub json: Option<String>,
}

pub struct EncodedView {
    pub kind: Seq<char>,
    pub text: Option<Seq<char>>,
    pub integer: Option<i64>,
    pub real: Option<RealView>,
    pub json: Option<Seq<char>>,
}

impl View for EncodedValue {
    type V = EncodedView;

    open spec fn view(&self) -> EncodedView {
        EncodedView {
            kind: self.kind@,
            text: optional_text(self.text),
            integer: self.integer,
            real: match self.real {
                Some(x) => Some(x@),
                None => None,
            },
            json: optional_text(self.json),
        }
    }
}

/// A value as a row holds it.
pub open spec fn encoded(v: ValueView) -> EncodedView {
    let bare = EncodedView {
        kind: kind_name(kind_of(v)),
        text: None,
        integer: None,
        real: None,
        json: carrier_of(v),
    };
    match v {
        ValueView::Boolean(b) => EncodedView {
            integer: Some(
                if b {
                    1
                } else {
                    0
                },
            ),
            ..bare
        },
        ValueView::Integer(n) => EncodedView { integer: Some(n), ..bare },
        ValueView::Real(x) => EncodedView { real: Some(x), ..bare },
        ValueView::Text(t) => EncodedView { text: Some(t), ..bare },
        ValueView::Date(t) => EncodedView { text: Some(t), ..bare },
        ValueView::DateTime(t) => EncodedView { text: Some(t), ..bare },
        _ => bare,
    }
}

/// Encodes a value, and refuses one that no Property can have. The row of any value but a list
/// gives the value back, where the numbers of a structured one have neither a fraction nor an
/// exponent.
pub fn encode_value(value: &PropertyValue) -> (r: Result<EncodedValue, CoreError>)
    ensures
        match r {
            Ok(columns) => value_fault(value@) is None && columns@ == encoded(value@),
            Err(e) => value_fault(value@) == Some(e@),
        },
        match r {
            Ok(columns) => !(value@ is List) && (value@ is Structured ==> whole_numbers(
                value@->Structured_0,
            )) ==> forall|items: Result<Seq<ValueView>, Seq<char>>| #[trigger]
                decoded(columns@, items) == Ok::<ValueView, ErrorView>(value@),
            Err(_) => true,
        },
{
    match value.validate() {
        Err(e) => return Err(e),
        Ok(_) => {},
    }
    let mut columns = EncodedValue {
        kind: kind_to_db(value.kind()).to_owned(),
        text: None,
        integer: None,
        real: None,
        json: value.canonical_json(),
    };
    match value {
        PropertyValue::Boolean(b) => {
            columns.integer = Some(if *b { 1 } else { 0 });
        },
        PropertyValue::Integer(n) => {
            columns.integer = Some(*n);
        },
        PropertyValue::Real(x) => {
            columns.real = Some(x.clone());
        },
        PropertyValue::Text(t) | PropertyValue::Date(t) | PropertyValue::DateTime(t) => {
            columns.text = Some(t.clone());
        },
        _ => {},
    }
    proof {
        if !(value@ is List) && (value@ is Structured ==> whole_numbers(value@->Structured_0)) {
            assert forall|items: Result<Seq<ValueView>, Seq<char>>| #[trigger]
                decoded(encoded(value@), items) == Ok::<ValueView, ErrorView>(value@) by {
                law_value_round_trip(value@, items);
            }
        }
    }
    Ok(columns)
}

/// A row that holds no value of its kind.
pub open spec fn bad_row(kind: Seq<char>) -> ErrorView {
    ErrorView::CorruptStore {
        store: "Record Store"@,
        reason: "invalid encoded "@ + kind + " Property value"@,
    }
}

fn bad_row_error(kind: &str) -> (r: CoreError)
    ensures
        r@ == bad_row(kind@),
{
    CoreError::CorruptStore {
        store: "Record Store",
        reason: join3("invalid encoded ", kind, " Property value"),
    }
}

/// JSON in a row that is none.
pub open spec fn bad_json(words: Seq<char>) -> ErrorView {
    ErrorView::CorruptStore { store: "Record Store"@, reason: words }
}

/// The value that a row holds, given what its JSON reads as where it is that of a list: the items,
/// or the words of the error.
pub open spec fn decoded(
    row: EncodedView,
    items: Result<Seq<ValueView>, Seq<char>>,
) -> Result<ValueView, ErrorView> {
    if row.kind == "null"@ {
        Ok(ValueView::Null)
    } else if row.kind == "boolean"@ {
        match row.integer {
            Some(n) => Ok(ValueView::Boolean(n != 0)),
            None => Err(bad_row(row.kind)),
        }
    } else if row.kind == "integer"@ {
        match row.integer {
            Some(n) => Ok(ValueView::Integer(n)),
            None => Err(bad_row(row.kind)),
        }
    } else if row.kind == "real"@ {
        match row.real {
            Some(x) => Ok(ValueView::Real(x)),
            None => Err(bad_row(row.kind)),
        }
    } else if row.kind == "text"@ {
        match row.text {
            Some(t) => Ok(ValueView::Text(t)),
            None => Err(bad_row(row.kind)),
        }
    } else if row.kind == "date"@ {
        match row.text {
            Some(t) => Ok(ValueView::Date(t)),
            None => Err(bad_row(row.kind)),
        }
    } else if row.kind == "date_time"@ {
        match row.text {
            Some(t) => Ok(ValueView::DateTime(t)),
            None => Err(bad_row(row.kind)),
        }
    } else if row.kind == "list"@ {
        if row.json is None {
            Err(bad_row(row.kind))
        } else {
            match items {
                Ok(list) => Ok(ValueView::List(list)),
                Err(words) => Err(bad_json(words)),
            }
        }
    } else if row.kind == "structured"@ {
        match row.json {
            None => Err(bad_row(row.kind)),
            Some(json) => match json_canonical(json) {
                Ok(text) => Ok(ValueView::Structured(text)),
                Err(words) => Err(bad_json(words)),
            },
        }
    } else {
        Err(bad_row(row.kind))
    }
}

/// What the JSON of a list read as.
pub open spec fn items_read(items: Result<Vec<PropertyValue>, String>) -> Result<
    Seq<ValueView>,
    Seq<char>,
> {
    match items {
        Ok(list) => Ok(values_view(list@)),
        Err(words) => Err(words@),
    }
}

/// Decodes a row. What its JSON reads as, where it is that of a list, is handed in.
pub fn decode_value(row: EncodedValue, items: Result<Vec<PropertyValue>, String>) -> (r: Result<
    PropertyValue,
    CoreError,
>)
    ensures
        match r {
            Ok(value) => decoded(row@, items_read(items)) == Ok::<ValueView, ErrorView>(value@),
            Err(e) => decoded(row@, items_read(items)) == Err::<ValueView, ErrorView>(e@),
        },
{
    let kind = row.kind.as_str();
    if same_text(kind, "null") {
        Ok(PropertyValue::Null)
    } else if same_text(kind, "boolean") {
        match row.integer {
            Some(n) => Ok(PropertyValue::Boolean(n != 0)),
            None => Err(bad_row_error(kind)),
        }
    } else if same_text(kind, "integer") {
        match row.integer {
            Some(n) => Ok(PropertyValue::Integer(n)),
            None => Err(bad_row_error(kind)),
        }
    } else if same_text(kind, "real") {
        match &row.real {
            Some(x) => Ok(PropertyValue::Real(x.clone())),
            None => Err(bad_row_error(kind)),
        }
    } else if same_text(kind, "text") {
        match &row.text {
            Some(t) => Ok(PropertyValue::Text(t.clone())),
            None => Err(bad_row_error(kind)),
        }
    } else if same_text(kind, "date") {
        match &row.text {
            Some(t) => Ok(PropertyValue::Date(t.clone())),
            None => Err(bad_row_error(kind)),
        }
    } else if same_text(kind, "date_time") {
        match &row.text {
            Some(t) => Ok(PropertyValue::DateTime(t.clone())),
            None => Err(bad_row_error(kind)),
        }
    } else if same_text(kind, "list") {
        if row.json.is_none() {
            return Err(bad_row_error(kind));
        }
        match items {
            Ok(list) => {
                let value = PropertyValue::List(list);
                proof {
                    let seen = value@->List_0;
                    assert forall|i: int| 0 <= i < list@.len() implies seen[i] == values_view(
                        list@,
                    )[i] by {
                        assert(seen[i] == list[i]@);
                    }
                    assert(seen =~= values_view(list@));
                }
                Ok(value)
            },
            Err(words) => Err(CoreError::CorruptStore { store: "Record Store", reason: words }),
        }
    } else if same_text(kind, "structured") {
        match &row.json {
            None => Err(bad_row_error(kind)),
            Some(json) => match JsonText::parse(json.as_str()) {
                Ok(text) => Ok(PropertyValue::Structured(text)),
                Err(words) => Err(CoreError::CorruptStore { store: "Record Store", reason: words }),
            },
        }
    } else {
        Err(bad_row_error(kind))
    }
}

/// The names of the kinds are all different.
pub proof fn lemma_kind_names_differ(a: PropertyValueKind, b: PropertyValueKind)
    ensures
        kind_name(a) == kind_name(b) ==> a == b,
{
    reveal_strlit("null");
    reveal_strlit("boolean");
    reveal_strlit("integer");
    reveal_strlit("real");
    reveal_strlit("text");
    reveal_strlit("date");
    reveal_strlit("date_time");
    reveal_strlit("list");
    reveal_strlit("structured");
    if kind_name(a) == kind_name(b) {
        assert(kind_name(a)[0] == kind_name(b)[0]);
        assert(kind_name(a).len() == kind_name(b).len());
        assert(kind_name(a)[2] == kind_name(b)[2]);
    }
}

/// A row gives back the value that was put in it. For lists, its JSON must read as the items that
/// were written; for structured values, the JSON must be one that reads as it is written: that of
/// a real of many digits may not be.
pub proof fn law_value_round_trip(v: ValueView, items: Result<Seq<ValueView>, Seq<char>>)
    requires
        v is List ==> items == Ok::<Seq<ValueView>, Seq<char>>(v->List_0),
        v is Structured ==> json_canonical(v->Structured_0) == Ok::<Seq<char>, Seq<char>>(
            v->Structured_0,
        ),
    ensures
        decoded(encoded(v), items) == Ok::<ValueView, ErrorView>(v),
{
    let k = kind_of(v);
    lemma_kind_names_differ(k, PropertyValueKind::Null);
    lemma_kind_names_differ(k, PropertyValueKind::Boolean);
    lemma_kind_names_differ(k, PropertyValueKind::Integer);
    lemma_kind_names_differ(k, PropertyValueKind::Real);
    lemma_kind_names_differ(k, PropertyValueKind::Text);
    lemma_kind_names_differ(k, PropertyValueKind::Date);
    lemma_kind_names_differ(k, PropertyValueKind::DateTime);
    lemma_kind_names_differ(k, PropertyValueKind::List);
    lemma_kind_names_differ(k, PropertyValueKind::Structured);
}

/// A row names the kind of its value and fills at most one column: none for null, and for every
/// other kind the one that the kind is read from.
pub proof fn law_row_fills_one_column(v: ValueView)
    ensures
        encoded(v).kind == kind_name(kind_of(v)),
        encoded(v).text is Some <==> v is Text || v is Date || v is DateTime,
        encoded(v).integer is Some <==> v is Boolean || v is Integer,
        encoded(v).real is Some <==> v is Real,
        encoded(v).json is Some <==> v is List || v is Structured,
{
}

/// An Index row that holds no value of its kind.
pub open spec fn bad_indexed(reason: Seq<char>) -> ErrorView {
    ErrorView::CorruptStore { store: "Index Store"@, reason }
}

/// The value that a row of the Index holds.
pub open spec fn indexed_decoded(
    row: EncodedView,
    items: Result<Seq<ValueView>, Seq<char>>,
) -> Result<ValueView, ErrorView> {
    if row.kind == "null"@ {
        Ok(ValueView::Null)
    } else if row.kind == "boolean"@ {
        if row.integer == Some(0i64) {
            Ok(ValueView::Boolean(false))
        } else if row.integer == Some(1i64) {
            Ok(ValueView::Boolean(true))
        } else {
            Err(bad_indexed("indexed boolean Property is invalid"@))
        }
    } else if row.kind == "integer"@ {
        match row.integer {
            Some(n) => Ok(ValueView::Integer(n)),
            None => Err(bad_indexed("indexed integer Property is missing its value"@)),
        }
    } else if row.kind == "real"@ {
        match row.real {
            Some(x) => Ok(ValueView::Real(x)),
            None => Err(bad_indexed("indexed real Property is missing its value"@)),
        }
    } else if row.kind == "text"@ {
        match row.text {
            Some(t) => Ok(ValueView::Text(t)),
            None => Err(bad_indexed("indexed text Property is missing its value"@)),
        }
    } else if row.kind == "date"@ {
        match row.text {
            Some(t) => Ok(ValueView::Date(t)),
            None => Err(bad_indexed("indexed date Property is missing its value"@)),
        }
    } else if row.kind == "date_time"@ {
        match row.text {
            Some(t) => Ok(ValueView::DateTime(t)),
            None => Err(bad_indexed("indexed date-time Property is missing its value"@)),
        }
    } else if row.kind == "list"@ {
        if row.json is None {
            Err(bad_indexed("indexed list Property is missing its JSON value"@))
        } else {
            match items {
                Ok(list) => Ok(ValueView::List(list)),
                Err(_) => Err(bad_indexed("indexed list Property JSON is invalid"@)),
            }
        }
    } else if row.kind == "structured"@ {
        match row.json {
            None => Err(bad_indexed("indexed structured Property is missing its JSON value"@)),
            Some(json) => match json_canonical(json) {
                Ok(text) => Ok(ValueView::Structured(text)),
                Err(_) => Err(bad_indexed("indexed structured Property JSON is invalid"@)),
            },
        }
    } else {
        Err(bad_indexed("indexed Property kind is invalid"@))
    }
}

/// Decodes a row of the Index. What its JSON reads as, where it is that of a list, is handed in.
pub fn decode_indexed_value(row: EncodedValue, items: Result<Vec<PropertyValue>, String>) -> (r:
    Result<PropertyValue, CoreError>)
    ensures
        match r {
            Ok(value) => indexed_decoded(row@, items_read(items)) == Ok::<ValueView, ErrorView>(
                value@,
            ),
            Err(e) => indexed_decoded(row@, items_read(items)) == Err::<ValueView, ErrorView>(e@),
        },
{
    let kind = row.kind.as_str();
    if same_text(kind, "null") {
        Ok(PropertyValue::Null)
    } else if same_text(kind, "boolean") {
        match row.integer {
            Some(0) => Ok(PropertyValue::Boolean(false)),
            Some(1) => Ok(PropertyValue::Boolean(true)),
            _ => Err(corrupt("Index Store", "indexed boolean Property is invalid")),
        }
    } else if same_text(kind, "integer") {
        match row.integer {
            Some(n) => Ok(PropertyValue::Integer(n)),
            None => Err(corrupt("Index Store", "indexed integer Property is missing its value")),
        }
    } else if same_text(kind, "real") {
        match &row.real {
            Some(x) => Ok(PropertyValue::Real(x.clone())),
            None => Err(corrupt("Index Store", "indexed real Property is missing its value")),
        }
    } else if same_text(kind, "text") {
        match &row.text {
            Some(t) => Ok(PropertyValue::Text(t.clone())),
            None => Err(corrupt("Index Store", "indexed text Property is missing its value")),
        }
    } else if same_text(kind, "date") {
        match &row.text {
            Some(t) => Ok(PropertyValue::Date(t.clone())),
            None => Err(corrupt("Index Store", "indexed date Property is missing its value")),
        }
    } else if same_text(kind, "date_time") {
        match &row.text {
            Some(t) => Ok(PropertyValue::DateTime(t.clone())),
            None => Err(corrupt("Index Store", "indexed date-time Property is missing its value")),
        }
    } else if same_text(kind, "list") {
        if row.json.is_none() {
            return Err(corrupt("Index Store", "indexed list Property is missing its JSON value"));
        }
        match items {
            Ok(list) => {
                let value = PropertyValue::List(list);
                proof {
                    let seen = value@->List_0;
                    assert forall|i: int| 0 <= i < list@.len() implies seen[i] == values_view(
                        list@,
                    )[i] by {
                        assert(seen[i] == list[i]@);
                    }
                    assert(seen =~= values_view(list@));
                }
                Ok(value)
            },
            Err(_) => Err(corrupt("Index Store", "indexed list Property JSON is invalid")),
        }
    } else if same_text(kind, "structured") {
        match &row.json {
            None => Err(
                corrupt("Index Store", "indexed structured Property is missing its JSON value"),
            ),
            Some(json) => match JsonText::parse(json.as_str()) {
                Ok(text) => Ok(PropertyValue::Structured(text)),
                Err(_) => Err(corrupt("Index Store", "indexed structured Property JSON is invalid")),
            },
        }
    } else {
        Err(corrupt("Index Store", "indexed Property kind is invalid"))
    }
}

/// The kind of a name.
pub open spec fn kind_named(name: Seq<char>) -> Result<PropertyValueKind, ErrorView> {
    if name == "null"@ {
        Ok(PropertyValueKind::Null)
    } else if name == "boolean"@ {
        Ok(PropertyValueKind::Boolean)
    } else if name == "integer"@ {
        Ok(PropertyValueKind::Integer)
    } else if name == "real"@ {
        Ok(PropertyValueKind::Real)
    } else if name == "text"@ {
        Ok(PropertyValueKind::Text)
    } else if name == "date"@ {
        Ok(PropertyValueKind::Date)
    } else if name == "date_time"@ {
        Ok(PropertyValueKind::DateTime)
    } else if name == "list"@ {
        Ok(PropertyValueKind::List)
    } else if name == "structured"@ {
        Ok(PropertyValueKind::Structured)
    } else {
        Err(
            ErrorView::CorruptStore {
                store: "Record Store"@,
                reason: "unknown Property value kind "@ + name,
            },
        )
    }
}

/// The kind of a name.
pub fn kind_from_db(value: &str) -> (r: Result<PropertyValueKind, CoreError>)
    ensures
        match r {
            Ok(kind) => kind_named(value@) == Ok::<PropertyValueKind, ErrorView>(kind),
            Err(e) => kind_named(value@) == Err::<PropertyValueKind, ErrorView>(e@),
        },
{
    if same_text(value, "null") {
        Ok(PropertyValueKind::Null)
    } else if same_text(value, "boolean") {
        Ok(PropertyValueKind::Boolean)
    } else if same_text(value, "integer") {
        Ok(PropertyValueKind::Integer)
    } else if same_text(value, "real") {
        Ok(PropertyValueKind::Real)
    } else if same_text(value, "text") {
        Ok(PropertyValueKind::Text)
    } else if same_text(value, "date") {
        Ok(PropertyValueKind::Date)
    } else if same_text(value, "date_time") {
        Ok(PropertyValueKind::DateTime)
    } else if same_text(value, "list") {
        Ok(PropertyValueKind::List)
    } else if same_text(value, "structured") {
        Ok(PropertyValueKind::Structured)
    } else {
        Err(
            CoreError::CorruptStore {
                store: "Record Store",
                reason: join2("unknown Property value kind ", value),
            },
        )
    }
}

/// The name of a kind reads as that kind.
pub proof fn law_kind_round_trip(kind: PropertyValueKind)
    ensures
        kind_named(kind_name(kind)) == Ok::<PropertyValueKind, ErrorView>(kind),
{
    lemma_kind_names_differ(kind, PropertyValueKind::Null);
    lemma_kind_names_differ(kind, PropertyValueKind::Boolean);
    lemma_kind_names_differ(kind, PropertyValueKind::Integer);
    lemma_kind_names_differ(kind, PropertyValueKind::Real);
    lemma_kind_names_differ(kind, PropertyValueKind::Text);
    lemma_kind_names_differ(kind, PropertyValueKind::Date);
    lemma_kind_names_differ(kind, PropertyValueKind::DateTime);
    lemma_kind_names_differ(kind, PropertyValueKind::List);
    lemma_kind_names_differ(kind, PropertyValueKind::Structured);
}

/// The name of a state of a Node.
pub open spec fn lifecycle_name(state: LifecycleState) -> Seq<char> {
    match state {
        LifecycleState::Active => "active"@,
        LifecycleState::Tombstoned => "tombstoned"@,
    }
}

/// The name of a state of a Node.
pub fn lifecycle_to_db(state: LifecycleState) -> (r: &'static str)
    ensures
        r@ == lifecycle_name(state),
{
    match state {
        LifecycleState::Active => "active",
        LifecycleState::Tombstoned => "tombstoned",
    }
}

/// The state of a Node that a name stands for.
pub open spec fn lifecycle_named(name: Seq<char>) -> Result<LifecycleState, ErrorView> {
    if name == "active"@ {
        Ok(LifecycleState::Active)
    } else if name == "tombstoned"@ {
        Ok(LifecycleState::Tombstoned)
    } else {
        Err(
            ErrorView::CorruptStore {
                store: "Record Store"@,
                reason: "unknown lifecycle state "@ + name,
            },
        )
    }
}

/// The state of a Node that a name stands for.
pub fn lifecycle_from_db(value: &str) -> (r: Result<LifecycleState, CoreError>)
    ensures
        match r {
            Ok(state) => lifecycle_named(value@) == Ok::<LifecycleState, ErrorView>(state),
            Err(e) => lifecycle_named(value@) == Err::<LifecycleState, ErrorView>(e@),
        },
{
    if same_text(value, "active") {
        Ok(LifecycleState::Active)
    } else if same_text(value, "tombstoned") {
        Ok(LifecycleState::Tombstoned)
    } else {
        Err(
            CoreError::CorruptStore {
                store: "Record Store",
                reason: join2("unknown lifecycle state ", value),
            },
        )
    }
}

/// The name of a state of a definition.
pub open spec fn definition_state_name(state: DefinitionState) -> Seq<char> {
    match state {
        DefinitionState::Active => "active"@,
        DefinitionState::Deprecated => "deprecated"@,
    }
}

/// The name of a state of a definition.
pub fn definition_state_to_db(state: DefinitionState) -> (r: &'static str)
    ensures
        r@ == definition_state_name(state),
{
    match state {
        DefinitionState::Active => "active",
        DefinitionState::Deprecated => "deprecated",
    }
}

/// The state of a definition that a name stands for.
pub open spec fn definition_state_named(name: Seq<char>) -> Result<DefinitionState, ErrorView> {
    if name == "active"@ {
        Ok(DefinitionState::Active)
    } else if name == "deprecated"@ {
        Ok(DefinitionState::Deprecated)
    } else {
        Err(ErrorView::Database("Query is not read-only"@))
    }
}

/// The state of a definition that a name stands for.
pub fn definition_state_from_db(value: &str) -> (r: Result<DefinitionState, CoreError>)
    ensures
        match r {
            Ok(state) => definition_state_named(value@) == Ok::<DefinitionState, ErrorView>(state),
            Err(e) => definition_state_named(value@) == Err::<DefinitionState, ErrorView>(e@),
        },
{
    if same_text(value, "active") {
        Ok(DefinitionState::Active)
    } else if same_text(value, "deprecated") {
        Ok(DefinitionState::Deprecated)
    } else {
        Err(CoreError::Database("Query is not read-only".to_owned()))
    }
}

/// The names of states read as those states.
pub proof fn law_state_round_trip(state: LifecycleState, definition: DefinitionState)
    ensures
        lifecycle_named(lifecycle_name(state)) == Ok::<LifecycleState, ErrorView>(state),
        definition_state_named(definition_state_name(definition)) == Ok::<
            DefinitionState,
            ErrorView,
        >(definition),
{
    reveal_strlit("active");
    reveal_strlit("tombstoned");
    reveal_strlit("deprecated");
    assert("active"@.len() != "tombstoned"@.len());
    assert("active"@.len() != "deprecated"@.len());
}

/// What the bytes of a column say of a Node ID.
pub open spec fn stored_id(bytes: Seq<u8>) -> Result<Seq<u8>, ErrorView> {
    if bytes.len() != 16 {
        Err(
            ErrorView::CorruptStore {
                store: "Record Store"@,
                reason: "Node UUID is not 16 bytes"@,
            },
        )
    } else {
        match id_fault(bytes) {
            Some(fault) => Err(
                ErrorView::CorruptStore { store: "Record Store"@, reason: message_of(fault) },
            ),
            None => Ok(bytes),
        }
    }
}

/// The Node ID that the bytes of a column are.
pub fn decode_node_id(value: &Vec<u8>) -> (r: Result<NodeId, CoreError>)
    ensures
        match r {
            Ok(id) => stored_id(value@) == Ok::<Seq<u8>, ErrorView>(id.spec_bytes()),
            Err(e) => stored_id(value@) == Err::<Seq<u8>, ErrorView>(e@),
        },
{
    if value.len() != 16 {
        return Err(corrupt("Record Store", "Node UUID is not 16 bytes"));
    }
    let bytes: [u8; 16] = [
        value[0], value[1], value[2], value[3], value[4], value[5], value[6], value[7],
        value[8], value[9], value[10], value[11], value[12], value[13], value[14], value[15],
    ];
    proof {
        assert(bytes@ =~= value@);
    }
    match NodeId::from_bytes(bytes) {
        Ok(id) => Ok(id),
        Err(e) => Err(CoreError::CorruptStore { store: "Record Store", reason: e.to_string() }),
    }
}

/// The name of a kind of change.
pub open spec fn change_name(kind: ChangeKind) -> Seq<char> {
    match kind {
        ChangeKind::NodeCreated => "node_created"@,
        ChangeKind::NodeTombstoned => "node_tombstoned"@,
        ChangeKind::NodeRestored => "node_restored"@,
        ChangeKind::NodePurged => "node_purged"@,
        ChangeKind::PropertySet => "property_set"@,
        ChangeKind::PropertyRemoved => "property_removed"@,
        ChangeKind::RelationshipAdded => "relationship_added"@,
        ChangeKind::RelationshipRemoved => "relationship_removed"@,
        ChangeKind::PropertyDefinitionRegistered => "property_definition_registered"@,
        ChangeKind::PropertyDefinitionUpdated => "property_definition_updated"@,
        ChangeKind::PropertyDefinitionDeprecated => "property_definition_deprecated"@,
        ChangeKind::PropertyDefinitionRemoved => "property_definition_removed"@,
        ChangeKind::RelationshipDefinitionRegistered => "relationship_definition_registered"@,
        ChangeKind::RelationshipDefinitionUpdated => "relationship_definition_updated"@,
        ChangeKind::RelationshipDefinitionDeprecated => "relationship_definition_deprecated"@,
        ChangeKind::RelationshipDefinitionRemoved => "relationship_definition_removed"@,
        ChangeKind::Unknown => ""@,
    }
}

/// The name of a kind of change.
pub fn change_to_db(kind: ChangeKind) -> (r: &'static str)
    ensures
        r@ == change_name(kind),
{
    match kind {
        ChangeKind::NodeCreated => "node_created",
        ChangeKind::NodeTombstoned => "node_tombstoned",
        ChangeKind::NodeRestored => "node_restored",
        ChangeKind::NodePurged => "node_purged",
        ChangeKind::PropertySet => "property_set",
        ChangeKind::PropertyRemoved => "property_removed",
        ChangeKind::RelationshipAdded => "relationship_added",
        ChangeKind::RelationshipRemoved => "relationship_removed",
        ChangeKind::PropertyDefinitionRegistered => "property_definition_registered",
        ChangeKind::PropertyDefinitionUpdated => "property_definition_updated",
        ChangeKind::PropertyDefinitionDeprecated => "property_definition_deprecated",
        ChangeKind::PropertyDefinitionRemoved => "property_definition_removed",
        ChangeKind::RelationshipDefinitionRegistered => "relationship_definition_registered",
        ChangeKind::RelationshipDefinitionUpdated => "relationship_definition_updated",
        ChangeKind::RelationshipDefinitionDeprecated => "relationship_definition_deprecated",
        ChangeKind::RelationshipDefinitionRemoved => "relationship_definition_removed",
        ChangeKind::Unknown => "",
    }
}

/// Whether a name is that of a kind of change; none is that of an unknown one.
pub open spec fn names_change(name: Seq<char>, kind: ChangeKind) -> bool {
    if kind is Unknown {
        forall|other: ChangeKind| !(other is Unknown) ==> #[trigger] change_name(other) != name
    } else {
        name == change_name(kind)
    }
}

/// The kind of change that a name stands for.
pub fn change_from_db(value: &str) -> (r: ChangeKind)
    ensures
        names_change(value@, r),
{
    if same_text(value, "node_created") {
        ChangeKind::NodeCreated
    } else if same_text(value, "node_tombstoned") {
        ChangeKind::NodeTombstoned
    } else if same_text(value, "node_restored") {
        ChangeKind::NodeRestored
    } else if same_text(value, "node_purged") {
        ChangeKind::NodePurged
    } else if same_text(value, "property_set") {
        ChangeKind::PropertySet
    } else if same_text(value, "property_removed") {
        ChangeKind::PropertyRemoved
    } else if same_text(value, "relationship_added") {
        ChangeKind::RelationshipAdded
    } else if same_text(value, "relationship_removed") {
        ChangeKind::RelationshipRemoved
    } else if same_text(value, "property_definition_registered") {
        ChangeKind::PropertyDefinitionRegistered
    } else if same_text(value, "property_definition_updated") {
        ChangeKind::PropertyDefinitionUpdated
    } else if same_text(value, "property_definition_deprecated") {
        ChangeKind::PropertyDefinitionDeprecated
    } else if same_text(value, "property_definition_removed") {
        ChangeKind::PropertyDefinitionRemoved
    } else if same_text(value, "relationship_definition_registered") {
        ChangeKind::RelationshipDefinitionRegistered
    } else if same_text(value, "relationship_definition_updated") {
        ChangeKind::RelationshipDefinitionUpdated
    } else if same_text(value, "relationship_definition_deprecated") {
        ChangeKind::RelationshipDefinitionDeprecated
    } else if same_text(value, "relationship_definition_removed") {
        ChangeKind::RelationshipDefinitionRemoved
    } else {
        ChangeKind::Unknown
    }
}

/// A JSON object with one text.
pub open spec fn one_text(member: Seq<char>, text: Seq<char>) -> Seq<char> {
    "{"@ + json_string_of(member) + ":"@ + json_string_of(text) + "}"@
}

fn object_of_one(member: &str, text: &str) -> (r: String)
    ensures
        r@ == one_text(member@, text@),
{
    let name = json_string(member);
    let value = json_string(text);
    crate::text::join5("{", name.as_str(), ":", value.as_str(), "}")
}

/// What a journal row says beside its columns: the other end of a Relationship, or the replacement
/// of a deprecated definition.
pub open spec fn descriptor_of(c: ChangeView) -> Option<Seq<char>> {
    match (c.target, c.replacement_key) {
        (Some(target), _) => Some(one_text("target"@, target.text())),
        (None, Some(key)) => Some(one_text("replacement_key"@, key)),
        _ => None,
    }
}

/// What a journal row says beside its columns.
pub fn change_descriptor(change: &ChangeRow) -> (r: Option<String>)
    ensures
        optional_text(r) == descriptor_of(change@),
{
    match (&change.target, &change.replacement_key) {
        (Some(target), _) => {
            let text = target.to_string();
            Some(object_of_one("target", text.as_str()))
        },
        (None, Some(key)) => Some(object_of_one("replacement_key", key.as_str())),
        _ => None,
    }
}

/// The text that serde_json finds as a member of the object in a text, if there is one.
pub uninterp spec fn json_member(text: Seq<char>, member: Seq<char>) -> Option<Seq<char>>;

/// `serde_json::from_str` into a `serde_json::Value`, asked by `get` and `as_str` for a member as a
/// text: what it finds depends on the text and the name alone, and in an object with that one member
/// it finds the text.
#[verifier::external_body]
fn read_member(json: &str, member: &str) -> (r: Option<String>)
    ensures
        optional_text(r) == json_member(json@, member@),
        forall|text: Seq<char>|
            json@ == #[trigger] one_text(member@, text) ==> optional_text(r) == Some(text),
{
    let value: serde_json::Value = serde_json::from_str(json).ok()?;
    Some(value.get(member)?.as_str()?.to_owned())
}

/// The Node that the text of a target names, if it names one.
pub open spec fn target_named(found: Option<Seq<char>>) -> Option<NodeId> {
    match found {
        None => None,
        Some(text) => match id_read(text) {
            Ok(bytes) => Some(id_of(bytes)),
            Err(_) => None,
        },
    }
}

/// The Node that the text of a target names, if it names one.
pub fn named_target(found: &Option<String>) -> (r: Option<NodeId>)
    ensures
        r == target_named(optional_text(*found)),
        forall|id: NodeId|
            id.valid() && optional_text(*found) == Some(#[trigger] id.text()) ==> r == Some(id),
{
    match found {
        None => None,
        Some(text) => match NodeId::parse(text.as_str()) {
            Ok(id) => {
                proof {
                    NodeId::lemma_id_of(id);
                }
                Some(id)
            },
            Err(_) => None,
        },
    }
}

/// The other end of a Relationship that a journal row names. What [`change_descriptor`] writes of
/// an end reads as that end.
pub fn relationship_target(descriptor: &str) -> (r: Option<NodeId>)
    ensures
        r == target_named(json_member(descriptor@, "target"@)),
        forall|id: NodeId|
            id.valid() && descriptor@ == #[trigger] one_text("target"@, id.text()) ==> r == Some(
                id,
            ),
{
    let found = read_member(descriptor, "target");
    named_target(&found)
}

/// A change as a journal row tells it.
pub fn read_change(
    revision: u64,
    ordinal: u64,
    kind: &str,
    node_id: Option<NodeId>,
    definition_key: Option<String>,
    descriptor: Option<String>,
) -> (r: ChangeRow)
    ensures
        r.revision == revision,
        r.ordinal == ordinal,
        names_change(kind@, r.kind),
        r.node_id == node_id,
        optional_text(r.definition_key) == optional_text(definition_key),
        r.replacement_key is None,
        if is_relationship_change(r.kind) && descriptor is Some {
            r.target == target_named(json_member(descriptor->0@, "target"@))
        } else {
            r.target is None
        },
        forall|c: ChangeView|
            is_relationship_change(r.kind) && c.target is Some && c.target->0.valid()
                && optional_text(descriptor) == #[trigger] descriptor_of(c) ==> r.target
                == c.target,
{
    let kind = change_from_db(kind);
    let concerns_relationship = match kind {
        ChangeKind::RelationshipAdded | ChangeKind::RelationshipRemoved => true,
        _ => false,
    };
    let target = match &descriptor {
        Some(text) if concerns_relationship => relationship_target(text.as_str()),
        _ => None,
    };
    ChangeRow { revision, ordinal, kind, node_id, definition_key, target, replacement_key: None }
}

/// What is read of a row stands in the column of its kind, and only there: the kind that the row
/// names, the truth value that the integer tells, the number, the text, the items or the JSON. A row
/// without its column, or of an unknown kind, is damaged.
pub proof fn law_rows_are_read_from_their_column(
    row: EncodedView,
    items: Result<Seq<ValueView>, Seq<char>>,
)
    ensures
        match decoded(row, items) {
            Ok(v) => {
                &&& kind_name(kind_of(v)) == row.kind
                &&& match v {
                    ValueView::Null => true,
                    ValueView::Boolean(b) => row.integer is Some && (b <==> row.integer->0 != 0),
                    ValueView::Integer(n) => row.integer == Some(n),
                    ValueView::Real(x) => row.real == Some(x),
                    ValueView::Text(t) => row.text == Some(t),
                    ValueView::Date(t) => row.text == Some(t),
                    ValueView::DateTime(t) => row.text == Some(t),
                    ValueView::List(list) => row.json is Some && items == Ok::<
                        Seq<ValueView>,
                        Seq<char>,
                    >(list),
                    ValueView::Structured(json) => row.json is Some && json_canonical(row.json->0)
                        == Ok::<Seq<char>, Seq<char>>(json),
                }
            },
            Err(e) => e is CorruptStore,
        },
        match indexed_decoded(row, items) {
            Ok(v) => {
                &&& decoded(row, items) == Ok::<ValueView, ErrorView>(v)
                &&& v is Boolean ==> row.integer == Some(0i64) || row.integer == Some(1i64)
            },
            Err(e) => e is CorruptStore,
        },
        decoded(row, items) is Ok && !(row.kind == "boolean"@) ==> indexed_decoded(row, items)
            is Ok,
        row.kind == "boolean"@ && (row.integer == Some(0i64) || row.integer == Some(1i64))
            ==> indexed_decoded(row, items) is Ok,
{
    lemma_kind_names_differ(PropertyValueKind::Boolean, PropertyValueKind::Null);
    lemma_kind_names_differ(PropertyValueKind::Boolean, PropertyValueKind::Integer);
}

/// The kinds, the states and the changes have names that tell them apart, and a name that is none of
/// them is damage.
pub proof fn law_names_tell_apart(
    kinds: (PropertyValueKind, PropertyValueKind),
    states: (LifecycleState, LifecycleState),
    definitions: (DefinitionState, DefinitionState),
    name: Seq<char>,
)
    ensures
        kind_name(kinds.0) == kind_name(kinds.1) ==> kinds.0 == kinds.1,
        lifecycle_name(states.0) == lifecycle_name(states.1) ==> states.0 == states.1,
        definition_state_name(definitions.0) == definition_state_name(definitions.1)
            ==> definitions.0 == definitions.1,
        kind_named(name) == Ok::<PropertyValueKind, ErrorView>(kinds.0) <==> name == kind_name(
            kinds.0,
        ),
        lifecycle_named(name) == Ok::<LifecycleState, ErrorView>(states.0) <==> name
            == lifecycle_name(states.0),
        definition_state_named(name) == Ok::<DefinitionState, ErrorView>(definitions.0) <==> name
            == definition_state_name(definitions.0),
{
    law_kind_round_trip(kinds.0);
    law_kind_round_trip(kinds.1);
    law_state_round_trip(states.0, definitions.0);
    law_state_round_trip(states.1, definitions.1);
}

/// Sixteen stored bytes are an ID exactly where they are of version seven; any other number of bytes
/// is damage.
pub proof fn law_stored_ids_are_checked(bytes: Seq<u8>)
    ensures
        stored_id(bytes) is Ok <==> bytes.len() == 16 && 0x70 <= bytes[6] <= 0x7f,
        stored_id(bytes) is Ok ==> stored_id(bytes)->Ok_0 == bytes,
        stored_id(bytes) is Err ==> stored_id(bytes)->Err_0 is CorruptStore,
{
    if bytes.len() == 16 && 0x70 <= bytes[6] <= 0x7f {
        assert(bytes[6] != 0);
    }
}

/// The names of the kinds and states are the ones that databases hold.
pub proof fn law_databases_hold_these_names(name: Seq<char>)
    ensures
        match kind_named(name) {
            Ok(kind) => match kind {
                PropertyValueKind::Null => name == "null"@,
                PropertyValueKind::Boolean => name == "boolean"@,
                PropertyValueKind::Integer => name == "integer"@,
                PropertyValueKind::Real => name == "real"@,
                PropertyValueKind::Text => name == "text"@,
                PropertyValueKind::Date => name == "date"@,
                PropertyValueKind::DateTime => name == "date_time"@,
                PropertyValueKind::List => name == "list"@,
                PropertyValueKind::Structured => name == "structured"@,
            },
            Err(e) => e is CorruptStore,
        },
        match lifecycle_named(name) {
            Ok(state) => match state {
                LifecycleState::Active => name == "active"@,
                LifecycleState::Tombstoned => name == "tombstoned"@,
            },
            Err(e) => e is CorruptStore,
        },
        match definition_state_named(name) {
            Ok(state) => match state {
                DefinitionState::Active => name == "active"@,
                DefinitionState::Deprecated => name == "deprecated"@,
            },
            Err(_) => name != "active"@ && name != "deprecated"@,
        },
{
}

/// The name of a change tells what was changed, and then how.
pub proof fn law_changes_are_named_by_what_and_how(kind: ChangeKind)
    ensures
        ({
            let name = change_name(kind);
            match kind {
                ChangeKind::NodeCreated => name == "node"@ + "_created"@,
                ChangeKind::NodeTombstoned => name == "node"@ + "_tombstoned"@,
                ChangeKind::NodeRestored => name == "node"@ + "_restored"@,
                ChangeKind::NodePurged => name == "node"@ + "_purged"@,
                ChangeKind::PropertySet => name == "property"@ + "_set"@,
                ChangeKind::PropertyRemoved => name == "property"@ + "_removed"@,
                ChangeKind::RelationshipAdded => name == "relationship"@ + "_added"@,
                ChangeKind::RelationshipRemoved => name == "relationship"@ + "_removed"@,
                ChangeKind::PropertyDefinitionRegistered => name == "property_definition"@
                    + "_registered"@,
                ChangeKind::PropertyDefinitionUpdated => name == "property_definition"@
                    + "_updated"@,
                ChangeKind::PropertyDefinitionDeprecated => name == "property_definition"@
                    + "_deprecated"@,
                ChangeKind::PropertyDefinitionRemoved => name == "property_definition"@
                    + "_removed"@,
                ChangeKind::RelationshipDefinitionRegistered => name == "relationship_definition"@
                    + "_registered"@,
                ChangeKind::RelationshipDefinitionUpdated => name == "relationship_definition"@
                    + "_updated"@,
                ChangeKind::RelationshipDefinitionDeprecated => name == "relationship_definition"@
                    + "_deprecated"@,
                ChangeKind::RelationshipDefinitionRemoved => name == "relationship_definition"@
                    + "_removed"@,
                ChangeKind::Unknown => true,
            }
        }),
{
    reveal_strlit("node");
    reveal_strlit("property");
    reveal_strlit("relationship");
    reveal_strlit("property_definition");
    reveal_strlit("relationship_definition");
    reveal_strlit("_created");
    reveal_strlit("_tombstoned");
    reveal_strlit("_restored");
    reveal_strlit("_purged");
    reveal_strlit("_set");
    reveal_strlit("_removed");
    reveal_strlit("_added");
    reveal_strlit("_registered");
    reveal_strlit("_updated");
    reveal_strlit("_deprecated");
    reveal_strlit("node_created");
    reveal_strlit("node_tombstoned");
    reveal_strlit("node_restored");
    reveal_strlit("node_purged");
    reveal_strlit("property_set");
    reveal_strlit("property_removed");
    reveal_strlit("relationship_added");
    reveal_strlit("relationship_removed");
    reveal_strlit("property_definition_registered");
    reveal_strlit("property_definition_updated");
    reveal_strlit("property_definition_deprecated");
    reveal_strlit("property_definition_removed");
    reveal_strlit("relationship_definition_registered");
    reveal_strlit("relationship_definition_updated");
    reveal_strlit("relationship_definition_deprecated");
    reveal_strlit("relationship_definition_removed");
    let name = change_name(kind);
    match kind {
        ChangeKind::NodeCreated => assert(name =~= "node"@ + "_created"@),
        ChangeKind::NodeTombstoned => assert(name =~= "node"@ + "_tombstoned"@),
        ChangeKind::NodeRestored => assert(name =~= "node"@ + "_restored"@),
        ChangeKind::NodePurged => assert(name =~= "node"@ + "_purged"@),
        ChangeKind::PropertySet => assert(name =~= "property"@ + "_set"@),
        ChangeKind::PropertyRemoved => assert(name =~= "property"@ + "_removed"@),
        ChangeKind::RelationshipAdded => assert(name =~= "relationship"@ + "_added"@),
        ChangeKind::RelationshipRemoved => assert(name =~= "relationship"@ + "_removed"@),
        ChangeKind::PropertyDefinitionRegistered => assert(name =~= "property_definition"@
            + "_registered"@),
        ChangeKind::PropertyDefinitionUpdated => assert(name =~= "property_definition"@
            + "_updated"@),
        ChangeKind::PropertyDefinitionDeprecated => assert(name =~= "property_definition"@
            + "_deprecated"@),
        ChangeKind::PropertyDefinitionRemoved => assert(name =~= "property_definition"@
            + "_removed"@),
        ChangeKind::RelationshipDefinitionRegistered => assert(name =~= "relationship_definition"@
            + "_registered"@),
        ChangeKind::RelationshipDefinitionUpdated => assert(name =~= "relationship_definition"@
            + "_updated"@),
        ChangeKind::RelationshipDefinitionDeprecated => assert(name =~= "relationship_definition"@
            + "_deprecated"@),
        ChangeKind::RelationshipDefinitionRemoved => assert(name =~= "relationship_definition"@
            + "_removed"@),
        ChangeKind::Unknown => {},
    }
}

/// The descriptor of a change holds the other end of a Relationship or, where there is none, the
/// replacement of a definition, and there is none exactly where the change has neither.
pub proof fn law_descriptors_hold_the_rest_of_a_change(c: ChangeView)
    ensures
        descriptor_of(c) is None <==> c.target is None && c.replacement_key is None,
        c.target is Some ==> descriptor_of(c)->0 == "{"@ + json_string_of("target"@) + ":"@
            + json_string_of(c.target->0.text()) + "}"@,
        c.target is None && c.replacement_key is Some ==> descriptor_of(c)->0 == "{"@
            + json_string_of("replacement_key"@) + ":"@ + json_string_of(c.replacement_key->0)
            + "}"@,
{
}

} // verus!
