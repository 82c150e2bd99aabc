//! Property values.
use vstd::prelude::*;
use crate::error::{CoreError, ErrorView};
use crate::text::{digit_of, join3, signed_decimal, signed_decimal_of};

verus! {

/// The kinds of Property values.
#[derive(Debug, Clone, Copy, PartialEq, Eq, Structural)]
pub enum PropertyValueKind {
    Null,
    Boolean,
    Integer,
    Real,
    Text,
    Date,
    DateTime,
    List,
    Structured,
}

/// A real number: the bits of its IEEE 754 double, and how JSON writes it.
#[derive(Debug, PartialEq, Eq)]
pub struct RealNumber {
    pub bits: u64,
    pub text: String,
}

/// A real number, its text taken as a sequence of characters.
pub struct RealView {
    pub bits: u64,
    pub text: Seq<char>,
}

impl View for RealNumber {
    type V = RealView;

    open spec fn view(&self) -> RealView {
        RealView { bits: self.bits, text: self.text@ }
    }
}

/// Whether the bits of a double are those of a finite number: not all exponent bits are set.
pub open spec fn finite_bits(bits: u64) -> bool {
    (bits / 0x10_0000_0000_0000) % 2048 != 2047
}

/// Where a finite double stands among the others: below zero with its magnitude negated, and
/// both zeros at zero.
pub open spec fn real_rank(bits: u64) -> int {
    if bits >= 0x8000_0000_0000_0000 {
        -((bits - 0x8000_0000_0000_0000) as int)
    } else {
        bits as int
    }
}

impl RealNumber {
    /// Whether the number is finite.
    pub fn is_finite(&self) -> (r: bool)
        ensures
            r == finite_bits(self.bits),
    {
        (self.bits / 0x10_0000_0000_0000) % 2048 != 2047
    }

    /// Whether the number is less than another.
    pub fn is_less(&self, other: &RealNumber) -> (r: bool)
        ensures
            r == (real_rank(self.bits) < real_rank(other.bits)),
    {
        let top: u64 = 0x8000_0000_0000_0000;
        if self.bits >= top {
            if other.bits >= top {
                self.bits > other.bits
            } else {
                self.bits > top || other.bits > 0
            }
        } else {
            other.bits < top && self.bits < other.bits
        }
    }
}

impl Clone for RealNumber {
    /// A number with the same bits and text.
    fn clone(&self) -> (r: RealNumber)
        ensures
            r@ == self@,
    {
        RealNumber { bits: self.bits, text: self.text.clone() }
    }
}

/// What serde_json reads in a text and writes again: the same JSON value in its compact form,
/// or the words of the error where the text is no JSON.
pub uninterp spec fn json_canonical(text: Seq<char>) -> Result<Seq<char>, Seq<char>>;

/// How JSON writes a character within a text: quotes, backslashes and control characters are
/// escaped, every other character stands for itself.
pub open spec fn json_escape(c: char) -> Seq<char> {
    let n = c as u32;
    if n == 0x22 {
        seq!['\\', '"']
    } else if n == 0x5c {
        seq!['\\', '\\']
    } else if n == 0x08 {
        seq!['\\', 'b']
    } else if n == 0x09 {
        seq!['\\', 't']
    } else if n == 0x0a {
        seq!['\\', 'n']
    } else if n == 0x0c {
        seq!['\\', 'f']
    } else if n == 0x0d {
        seq!['\\', 'r']
    } else if n < 0x20 {
        seq!['\\', 'u', '0', '0', digit_of(n as int / 16), digit_of(n as int % 16)]
    } else {
        seq![c]
    }
}

/// How JSON writes the characters of a text.
pub open spec fn json_escaped(text: Seq<char>) -> Seq<char>
    decreases text.len(),
{
    if text.len() == 0 {
        Seq::empty()
    } else {
        json_escaped(text.drop_last()) + json_escape(text.last())
    }
}

/// How JSON writes a text: its characters, escaped where they must be, between quotes.
pub open spec fn json_string_of(text: Seq<char>) -> Seq<char> {
    seq!['"'] + json_escaped(text) + seq!['"']
}

/// Where a character of a JSON text stands: outside the texts that it quotes, within one, or
/// behind a backslash within one.
pub enum JsonPlace {
    Outside,
    Within,
    Escaped,
}

/// Where the character stands that comes after the first `n` of a JSON text.
pub open spec fn json_place(text: Seq<char>, n: nat) -> JsonPlace
    decreases n,
{
    if n == 0 {
        JsonPlace::Outside
    } else {
        let c = text[n - 1];
        match json_place(text, (n - 1) as nat) {
            JsonPlace::Outside => if c == '"' {
                JsonPlace::Within
            } else {
                JsonPlace::Outside
            },
            JsonPlace::Within => if c == '"' {
                JsonPlace::Outside
            } else if c == '\\' {
                JsonPlace::Escaped
            } else {
                JsonPlace::Within
            },
            JsonPlace::Escaped => JsonPlace::Within,
        }
    }
}

/// Whether the numbers in a JSON text have neither a fraction nor an exponent.
pub open spec fn whole_numbers(text: Seq<char>) -> bool {
    forall|i: int|
        0 <= i < text.len() - 1 && json_place(text, i as nat) is Outside && '0'
            <= #[trigger] text[i] <= '9' ==> text[i + 1] != '.' && text[i + 1] != 'e'
}

/// Whether a JSON text reads as it is written, as far as its numbers have neither a fraction nor
/// an exponent.
pub open spec fn reads_back(text: Seq<char>) -> bool {
    whole_numbers(text) ==> json_canonical(text) == Ok::<Seq<char>, Seq<char>>(text)
}

/// `serde_json::from_str` into a `serde_json::Value`, written out again with its `to_string`:
/// what comes back depends on the text alone. A text that was written so reads as it is written
/// where its numbers have neither a fraction nor an exponent; of a real of many digits, the reader
/// may return a neighbour.
#[verifier::external_body]
fn canonical_json_text(text: &str) -> (r: Result<String, String>)
    ensures
        match r {
            Ok(t) => json_canonical(text@) == Ok::<Seq<char>, Seq<char>>(t@) && reads_back(t@),
            Err(words) => json_canonical(text@) == Err::<Seq<char>, Seq<char>>(words@),
        },
{
    match serde_json::from_str::<serde_json::Value>(text) {
        Ok(value) => Ok(value.to_string()),
        Err(error) => Err(error.to_string()),
    }
}

/// `to_string` of a `serde_json::Value` made of a text: the text between quotes, with quotes,
/// backslashes and control characters escaped.
#[verifier::external_body]
pub(crate) fn json_string(text: &str) -> (r: String)
    ensures
        r@ == json_string_of(text@),
{
    serde_json::Value::from(text).to_string()
}

/// A JSON value, carried as its compact text.
#[derive(Debug, PartialEq, Eq)]
pub struct JsonText {
    text: String,
}

impl View for JsonText {
    type V = Seq<char>;

    closed spec fn view(&self) -> Seq<char> {
        self.text@
    }
}

impl JsonText {
    #[verifier::type_invariant]
    spec fn is_stable(self) -> bool {
        reads_back(self.text@)
    }

    /// The JSON value in a text; where there is none, the words that say why.
    pub fn parse(text: &str) -> (r: Result<JsonText, String>)
        ensures
            match r {
                Ok(json) => json_canonical(text@) == Ok::<Seq<char>, Seq<char>>(json@)
                    && reads_back(json@),
                Err(words) => json_canonical(text@) == Err::<Seq<char>, Seq<char>>(words@),
            },
    {
        match canonical_json_text(text) {
            Ok(text) => Ok(JsonText { text }),
            Err(words) => Err(words),
        }
    }

    /// The compact text of the value, which reads as it is written where its numbers have neither
    /// a fraction nor an exponent.
    pub fn as_str(&self) -> (r: &str)
        ensures
            r@ == self@,
            reads_back(r@),
    {
        proof {
            use_type_invariant(self);
        }
        self.text.as_str()
    }
}

impl Clone for JsonText {
    /// The same value.
    fn clone(&self) -> (r: JsonText)
        ensures
            r@ == self@,
    {
        proof {
            use_type_invariant(self);
        }
        JsonText { text: self.text.clone() }
    }
}

/// The value of a Property.
#[derive(Debug, PartialEq, Eq)]
pub enum PropertyValue {
    Null,
    Boolean(bool),
    Integer(i64),
    Real(RealNumber),
    Text(String),
    Date(String),
    DateTime(String),
    List(Vec<PropertyValue>),
    Structured(JsonText),
}

/// The value of a Property, its texts taken as sequences of characters.
pub enum ValueView {
    Null,
    Boolean(bool),
    Integer(i64),
    Real(RealView),
    Text(Seq<char>),
    Date(Seq<char>),
    DateTime(Seq<char>),
    List(Seq<ValueView>),
    Structured(Seq<char>),
}

pub open spec fn value_view(v: PropertyValue) -> ValueView
    decreases v,
{
    match v {
        PropertyValue::Null => ValueView::Null,
        PropertyValue::Boolean(b) => ValueView::Boolean(b),
        PropertyValue::Integer(n) => ValueView::Integer(n),
        PropertyValue::Real(x) => ValueView::Real(x@),
        PropertyValue::Text(t) => ValueView::Text(t@),
        PropertyValue::Date(t) => ValueView::Date(t@),
        PropertyValue::DateTime(t) => ValueView::DateTime(t@),
        PropertyValue::List(items) => ValueView::List(
            Seq::new(
                items@.len(),
                |i: int|
                    if 0 <= i < items@.len() {
                        value_view(items[i])
                    } else {
                        ValueView::Null
                    },
            ),
        ),
        PropertyValue::Structured(json) => ValueView::Structured(json@),
    }
}

impl View for PropertyValue {
    type V = ValueView;

    open spec fn view(&self) -> ValueView {
        value_view(*self)
    }
}

/// The views of a run of values.
pub open spec fn values_view(items: Seq<PropertyValue>) -> Seq<ValueView> {
    Seq::new(items.len(), |i: int| items[i]@)
}

/// The kind of a value.
pub open spec fn kind_of(v: ValueView) -> PropertyValueKind {
    match v {
        ValueView::Null => PropertyValueKind::Null,
        ValueView::Boolean(_) => PropertyValueKind::Boolean,
        ValueView::Integer(_) => PropertyValueKind::Integer,
        ValueView::Real(_) => PropertyValueKind::Real,
        ValueView::Text(_) => PropertyValueKind::Text,
        ValueView::Date(_) => PropertyValueKind::Date,
        ValueView::DateTime(_) => PropertyValueKind::DateTime,
        ValueView::List(_) => PropertyValueKind::List,
        ValueView::Structured(_) => PropertyValueKind::Structured,
    }
}

/// A value as its column keeps it: minus zero becomes zero, every other value stays as it is. The
/// items of a list and the numbers of a structured value stand in a text and stay as they are.
pub open spec fn kept_value(v: ValueView) -> ValueView {
    match v {
        ValueView::Real(x) => if x.bits == 0x8000_0000_0000_0000 {
            ValueView::Real(RealView { bits: 0, text: "0.0"@ })
        } else {
            v
        },
        _ => v,
    }
}

/// The name of a kind, as stores and JSON carriers write it.
pub open spec fn kind_name(kind: PropertyValueKind) -> Seq<char> {
    match kind {
        PropertyValueKind::Null => "null"@,
        PropertyValueKind::Boolean => "boolean"@,
        PropertyValueKind::Integer => "integer"@,
        PropertyValueKind::Real => "real"@,
        PropertyValueKind::Text => "text"@,
        PropertyValueKind::Date => "date"@,
        PropertyValueKind::DateTime => "date_time"@,
        PropertyValueKind::List => "list"@,
        PropertyValueKind::Structured => "structured"@,
    }
}

/// Whether `chrono::NaiveDate::parse_from_str` reads a text as `%Y-%m-%d`.
pub uninterp spec fn is_date(text: Seq<char>) -> bool;

/// Whether `chrono::DateTime::parse_from_rfc3339` reads a text.
pub uninterp spec fn is_date_time(text: Seq<char>) -> bool;

/// `chrono::NaiveDate::parse_from_str` with the format `%Y-%m-%d`: whether it reads a text
/// depends on the text alone.
#[verifier::external_body]
fn reads_as_date(text: &str) -> (r: bool)
    ensures
        r == is_date(text@),
{
    chrono::NaiveDate::parse_from_str(text, "%Y-%m-%d").is_ok()
}

/// `chrono::DateTime::parse_from_rfc3339`: whether it reads a text depends on the text alone.
#[verifier::external_body]
fn reads_as_date_time(text: &str) -> (r: bool)
    ensures
        r == is_date_time(text@),
{
    chrono::DateTime::parse_from_rfc3339(text).is_ok()
}

/// Why a date is refused, given whether its text reads as one.
pub open spec fn date_fault(reads: bool) -> Option<ErrorView> {
    if reads {
        None
    } else {
        Some(
            ErrorView::InvalidPropertyValue(
                "dates must use a valid YYYY-MM-DD representation"@,
            ),
        )
    }
}

/// Why a date-time is refused, given whether its text reads as one.
pub open spec fn date_time_fault(reads: bool) -> Option<ErrorView> {
    if reads {
        None
    } else {
        Some(
            ErrorView::InvalidPropertyValue(
                "date-times must use RFC 3339 with an explicit offset"@,
            ),
        )
    }
}

/// Why a value is refused: a real that is not finite, a date or a date-time whose text does not
/// read as one, or the first such fault among the items of a list.
pub open spec fn value_fault(v: ValueView) -> Option<ErrorView>
    decreases v, 0nat,
{
    match v {
        ValueView::Real(x) => if finite_bits(x.bits) {
            None
        } else {
            Some(ErrorView::InvalidPropertyValue("real values must be finite"@))
        },
        ValueView::Date(text) => date_fault(is_date(text)),
        ValueView::DateTime(text) => date_time_fault(is_date_time(text)),
        ValueView::List(items) => items_fault(items, items.len()),
        _ => None,
    }
}

/// The first fault among the first `n` items.
pub open spec fn items_fault(items: Seq<ValueView>, n: nat) -> Option<ErrorView>
    decreases items, n,
{
    if n == 0 || n > items.len() {
        None
    } else {
        match items_fault(items, (n - 1) as nat) {
            Some(fault) => Some(fault),
            None => value_fault(items[n - 1]),
        }
    }
}

proof fn lemma_items_fault_stays(items: Seq<ValueView>, n: nat, m: nat)
    requires
        n <= m <= items.len(),
        items_fault(items, n) is Some,
    ensures
        items_fault(items, m) == items_fault(items, n),
    decreases m,
{
    if n < m {
        lemma_items_fault_stays(items, n, (m - 1) as nat);
    }
}

/// What follows the name of the kind in the JSON carrier of an item.
pub open spec fn payload_json(v: ValueView) -> Seq<char>
    decreases v, 0nat,
{
    match v {
        ValueView::Null => ""@,
        ValueView::Boolean(b) => if b {
            "true"@
        } else {
            "false"@
        },
        ValueView::Integer(n) => signed_decimal_of(n as int),
        ValueView::Real(x) => x.text,
        ValueView::Text(text) => json_string_of(text),
        ValueView::Date(text) => json_string_of(text),
        ValueView::DateTime(text) => json_string_of(text),
        ValueView::List(items) => items_json(items, items.len()) + "]"@,
        ValueView::Structured(json) => json,
    }
}

/// The JSON carrier of one item of a list: its kind and, unless it is null, its value.
pub open spec fn item_json(kind: PropertyValueKind, payload: Seq<char>) -> Seq<char> {
    if kind is Null {
        "{\"kind\":\"null\"}"@
    } else {
        "{\"kind\":\""@ + kind_name(kind) + ("\",\"value\":"@ + payload + "}"@)
    }
}

/// An opening bracket, then the first `n` items, with commas between.
pub open spec fn items_json(items: Seq<ValueView>, n: nat) -> Seq<char>
    decreases items, n,
{
    if n == 0 || n > items.len() {
        "["@
    } else {
        items_json(items, (n - 1) as nat) + (if n == 1 {
            ""@
        } else {
            ","@
        }) + item_json(kind_of(items[n - 1]), payload_json(items[n - 1]))
    }
}

/// The JSON carrier of a value that has one: a list, or a structured value.
pub open spec fn carrier_of(v: ValueView) -> Option<Seq<char>> {
    match v {
        ValueView::List(items) => Some(items_json(items, items.len()) + "]"@),
        ValueView::Structured(json) => Some(json),
        _ => None,
    }
}

/// The name of a kind.
pub fn kind_to_db(kind: PropertyValueKind) -> (r: &'static str)
    ensures
        r@ == kind_name(kind),
{
    match kind {
        PropertyValueKind::Null => "null",
        PropertyValueKind::Boolean => "boolean",
        PropertyValueKind::Integer => "integer",
        PropertyValueKind::Real => "real",
        PropertyValueKind::Text => "text",
        PropertyValueKind::Date => "date",
        PropertyValueKind::DateTime => "date_time",
        PropertyValueKind::List => "list",
        PropertyValueKind::Structured => "structured",
    }
}

/// Refuses a date whose text does not read as one.
pub fn check_date(reads: bool) -> (r: Result<(), CoreError>)
    ensures
        match r {
            Ok(_) => date_fault(reads) is None,
            Err(e) => date_fault(reads) == Some(e@),
        },
{
    if reads {
        Ok(())
    } else {
        Err(
            CoreError::InvalidPropertyValue(
                "dates must use a valid YYYY-MM-DD representation".to_owned(),
            ),
        )
    }
}

/// Refuses a date-time whose text does not read as one.
pub fn check_date_time(reads: bool) -> (r: Result<(), CoreError>)
    ensures
        match r {
            Ok(_) => date_time_fault(reads) is None,
            Err(e) => date_time_fault(reads) == Some(e@),
        },
{
    if reads {
        Ok(())
    } else {
        Err(
            CoreError::InvalidPropertyValue(
                "date-times must use RFC 3339 with an explicit offset".to_owned(),
            ),
        )
    }
}

impl PropertyValue {
    /// The kind of the value.
    pub fn kind(&self) -> (r: PropertyValueKind)
        ensures
            r == kind_of(self@),
    {
        match self {
            PropertyValue::Null => PropertyValueKind::Null,
            PropertyValue::Boolean(_) => PropertyValueKind::Boolean,
            PropertyValue::Integer(_) => PropertyValueKind::Integer,
            PropertyValue::Real(_) => PropertyValueKind::Real,
            PropertyValue::Text(_) => PropertyValueKind::Text,
            PropertyValue::Date(_) => PropertyValueKind::Date,
            PropertyValue::DateTime(_) => PropertyValueKind::DateTime,
            PropertyValue::List(_) => PropertyValueKind::List,
            PropertyValue::Structured(_) => PropertyValueKind::Structured,
        }
    }

    /// Stable JSON carrier for List and Structured values.
    pub fn canonical_json(&self) -> (r: Option<String>)
        ensures
            match r {
                Some(text) => carrier_of(self@) == Some(text@),
                None => carrier_of(self@) is None,
            },
            self@ is Structured ==> reads_back(self@->Structured_0),
    {
        match self {
            PropertyValue::List(_) => Some(self.payload()),
            PropertyValue::Structured(json) => Some(json.as_str().to_owned()),
            _ => None,
        }
    }

    /// The value as its column keeps it.
    pub fn kept(&self) -> (r: PropertyValue)
        ensures
            r@ == kept_value(self@),
    {
        match self {
            PropertyValue::Real(x) => if x.bits == 0x8000_0000_0000_0000 {
                PropertyValue::Real(RealNumber { bits: 0, text: "0.0".to_owned() })
            } else {
                self.clone()
            },
            _ => self.clone(),
        }
    }

    /// The JSON text of the value without its kind.
    fn payload(&self) -> (r: String)
        ensures
            r@ == payload_json(self@),
        decreases self,
    {
        match self {
            PropertyValue::Null => "".to_owned(),
            PropertyValue::Boolean(b) => if *b {
                "true".to_owned()
            } else {
                "false".to_owned()
            },
            PropertyValue::Integer(n) => signed_decimal(*n),
            PropertyValue::Real(x) => x.text.clone(),
            PropertyValue::Text(text) => json_string(text.as_str()),
            PropertyValue::Date(text) => json_string(text.as_str()),
            PropertyValue::DateTime(text) => json_string(text.as_str()),
            PropertyValue::List(items) => {
                let ghost views = self@->List_0;
                let mut r = "[".to_owned();
                let mut i: usize = 0;
                while i < items.len()
                    invariant
                        i <= items@.len(),
                        decreases_to!(self => items),
                        views.len() == items@.len(),
                        forall|j: int| 0 <= j < items@.len() ==> views[j] == #[trigger] items[j]@,
                        r@ == items_json(views, i as nat),
                    decreases items@.len() - i,
                {
                    let item = &items[i];
                    if i > 0 {
                        r.append(",");
                    }
                    proof {
                        assert(r@ =~= items_json(views, i as nat) + (if i == 0 {
                            ""@
                        } else {
                            ","@
                        })) by {
                            reveal_strlit("");
                        }
                    }
                    let text = item_text(item.kind(), item.payload());
                    r.append(text.as_str());
                    i = i + 1;
                }
                r.append("]");
                r
            },
            PropertyValue::Structured(json) => json.as_str().to_owned(),
        }
    }

    /// Refuses a value that no Property can have.
    pub fn validate(&self) -> (r: Result<(), CoreError>)
        ensures
            match r {
                Ok(_) => value_fault(self@) is None,
                Err(e) => value_fault(self@) == Some(e@),
            },
        decreases self,
    {
        match self {
            PropertyValue::Real(x) => if x.is_finite() {
                Ok(())
            } else {
                Err(CoreError::InvalidPropertyValue("real values must be finite".to_owned()))
            },
            PropertyValue::Date(text) => check_date(reads_as_date(text.as_str())),
            PropertyValue::DateTime(text) => check_date_time(reads_as_date_time(text.as_str())),
            PropertyValue::List(items) => {
                let ghost views = self@->List_0;
                let mut i: usize = 0;
                while i < items.len()
                    invariant
                        i <= items@.len(),
                        decreases_to!(self => items),
                        self@ == ValueView::List(views),
                        views.len() == items@.len(),
                        forall|j: int| 0 <= j < items@.len() ==> views[j] == #[trigger] items[j]@,
                        items_fault(views, i as nat) is None,
                    decreases items@.len() - i,
                {
                    let checked = items[i].validate();
                    if checked.is_err() {
                        proof {
                            lemma_items_fault_stays(views, (i + 1) as nat, views.len());
                        }
                        return checked;
                    }
                    i = i + 1;
                }
                Ok(())
            },
            _ => Ok(()),
        }
    }
}

impl Clone for PropertyValue {
    /// The same value.
    fn clone(&self) -> (r: PropertyValue)
        ensures
            r@ == self@,
        decreases self,
    {
        match self {
            PropertyValue::Null => PropertyValue::Null,
            PropertyValue::Boolean(b) => PropertyValue::Boolean(*b),
            PropertyValue::Integer(n) => PropertyValue::Integer(*n),
            PropertyValue::Real(x) => PropertyValue::Real(x.clone()),
            PropertyValue::Text(text) => PropertyValue::Text(text.clone()),
            PropertyValue::Date(text) => PropertyValue::Date(text.clone()),
            PropertyValue::DateTime(text) => PropertyValue::DateTime(text.clone()),
            PropertyValue::List(items) => {
                let ghost views = self@->List_0;
                let mut copies: Vec<PropertyValue> = Vec::new();
                let mut i: usize = 0;
                while i < items.len()
                    invariant
                        i <= items@.len(),
                        decreases_to!(self => items),
                        views.len() == items@.len(),
                        forall|j: int| 0 <= j < items@.len() ==> views[j] == #[trigger] items[j]@,
                        copies@.len() == i,
                        forall|j: int| 0 <= j < i ==> views[j] == #[trigger] copies[j]@,
                    decreases items@.len() - i,
                {
                    copies.push(items[i].clone());
                    i = i + 1;
                }
                let r = PropertyValue::List(copies);
                proof {
                    let seen = r@->List_0;
                    assert forall|j: int| 0 <= j < views.len() implies seen[j] == views[j] by {
                        assert(seen[j] == copies[j]@);
                    }
                    assert(seen =~= views);
                }
                r
            },
            PropertyValue::Structured(json) => PropertyValue::Structured(json.clone()),
        }
    }
}

fn item_text(kind: PropertyValueKind, payload: String) -> (r: String)
    ensures
        r@ == item_json(kind, payload@),
{
    if kind == PropertyValueKind::Null {
        "{\"kind\":\"null\"}".to_owned()
    } else {
        let rest = join3("\",\"value\":", payload.as_str(), "}");
        join3("{\"kind\":\"", kind_to_db(kind), rest.as_str())
    }
}

} // verus!
