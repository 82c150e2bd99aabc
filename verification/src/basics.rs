//! What holds of texts, IDs, values and errors by themselves.
use vstd::prelude::*;
use crate::api::{
    DerivedRelationshipInput, GraphEdge, GraphNode, IndexedRelationship, PropertyDefinition,
    Relationship, RelationshipDefinition, SearchDocumentInput, SearchHit,
};
use crate::error::{category_of, message_of, CoreError, ErrorView};
use crate::id::{bytes_before, id_fault, id_read, uuid_parse, uuid_version, NodeId};
use crate::index::content::{derived_key, derived_row};
use crate::record_store::effects::is_of_kind;
use crate::table::TableKey;
use crate::text::{
    char_is_whitespace, decimal_of, digits_value, folded, hex_of, is_blank, padded_decimal_of,
    signed_decimal_of, text_before, u64_of,
};
use crate::value::{
    carrier_of, is_date, is_date_time, items_fault, items_json, json_string_of, kind_name, kind_of,
    real_rank, value_fault, PropertyValue, PropertyValueKind, ValueView,
};

verus! {

/// Texts are ordered by the first character in which they differ, the lower code point first; a text
/// stands before every longer one that begins with it.
pub proof fn law_texts_are_ordered(
    begin: Seq<char>,
    c: char,
    d: char,
    s: Seq<char>,
    t: Seq<char>,
)
    ensures
        c as u32 != d as u32 ==> (text_before(begin + seq![c] + s, begin + seq![d] + t) <==> (
        c as u32) < (d as u32)),
        text_before(begin, begin + seq![c] + s),
        !text_before(begin + seq![c] + s, begin),
        !text_before(begin, begin),
    decreases begin.len(),
{
    let a = begin + seq![c] + s;
    let b = begin + seq![d] + t;
    if begin.len() == 0 {
        assert(a[0] == c && b[0] == d);
    } else {
        let rest = begin.drop_first();
        law_texts_are_ordered(rest, c, d, s, t);
        assert(a[0] == begin[0] && b[0] == begin[0]);
        assert(a.drop_first() =~= rest + seq![c] + s);
        assert(b.drop_first() =~= rest + seq![d] + t);
    }
}

/// IDs are ordered by the first byte in which they differ, the lower one first.
pub proof fn law_ids_are_ordered(a: NodeId, b: NodeId, at: int)
    requires
        0 <= at < a.spec_bytes().len(),
        at < b.spec_bytes().len(),
        forall|i: int| 0 <= i < at ==> #[trigger] a.spec_bytes()[i] == b.spec_bytes()[i],
        a.spec_bytes()[at] != b.spec_bytes()[at],
    ensures
        NodeId::before(a, b) <==> a.spec_bytes()[at] < b.spec_bytes()[at],
{
    lemma_bytes_ordered(a.spec_bytes(), b.spec_bytes(), at);
}

proof fn lemma_bytes_ordered(a: Seq<u8>, b: Seq<u8>, at: int)
    requires
        0 <= at < a.len(),
        at < b.len(),
        forall|i: int| 0 <= i < at ==> #[trigger] a[i] == b[i],
        a[at] != b[at],
    ensures
        bytes_before(a, b) <==> a[at] < b[at],
    decreases at,
{
    if at > 0 {
        assert(a[0] == b[0]);
        assert forall|i: int| 0 <= i < at - 1 implies #[trigger] a.drop_first()[i]
            == b.drop_first()[i] by {
            assert(a[i + 1] == b[i + 1]);
        }
        lemma_bytes_ordered(a.drop_first(), b.drop_first(), at - 1);
    }
}

/// Sixteen bytes are a Node ID exactly where they carry the version seven: the seventh byte is one of
/// the sixteen from `70` on.
pub proof fn law_ids_are_version_seven(bytes: Seq<u8>)
    requires
        bytes.len() == 16,
    ensures
        id_fault(bytes) is None <==> 0x70 <= bytes[6] <= 0x7f,
        id_fault(bytes) is Some ==> id_fault(bytes)->0 is InvalidNodeId,
{
    if 0x70 <= bytes[6] <= 0x7f {
        assert(bytes[6] != 0);
    }
}

/// A text is blank where it is empty, one of one character where that is white space, and one of two
/// parts where both are blank.
pub proof fn law_blank_texts(a: Seq<char>, b: Seq<char>, c: char)
    ensures
        is_blank(Seq::empty()),
        is_blank(seq![c]) <==> char_is_whitespace(c),
        is_blank(a + b) <==> is_blank(a) && is_blank(b),
{
    if is_blank(seq![c]) {
        assert(char_is_whitespace(seq![c][0]));
    }
    if is_blank(a + b) {
        assert forall|i: int| 0 <= i < a.len() implies char_is_whitespace(#[trigger] a[i]) by {
            assert((a + b)[i] == a[i]);
        }
        assert forall|i: int| 0 <= i < b.len() implies char_is_whitespace(#[trigger] b[i]) by {
            assert((a + b)[a.len() + i] == b[i]);
        }
    }
}

/// Numbers are written in decimal: a digit for each number below ten, and one digit behind the
/// others for ten times as much and some; a minus before what is below zero; and zeros in front where
/// a width is asked for that the digits do not fill.
pub proof fn law_numbers_are_written_in_decimal(n: nat, d: nat, width: nat)
    requires
        d < 10,
    ensures
        decimal_of(d).len() == 1,
        decimal_of(d)[0] as u32 == 48 + d,
        n > 0 ==> decimal_of(10 * n + d) == decimal_of(n) + decimal_of(d),
        signed_decimal_of(n as int) == decimal_of(n),
        n > 0 ==> signed_decimal_of(-(n as int)) == seq!['-'] + decimal_of(n),
        padded_decimal_of(n, width).len() == if decimal_of(n).len() < width {
            width
        } else {
            decimal_of(n).len()
        },
        decimal_of(n).is_suffix_of(padded_decimal_of(n, width)),
        forall|i: int|
            0 <= i < padded_decimal_of(n, width).len() - decimal_of(n).len()
                ==> #[trigger] padded_decimal_of(n, width)[i] == '0',
{
    if n > 0 {
        assert((10 * n + d) / 10 == n && (10 * n + d) % 10 == d);
        assert(decimal_of(10 * n + d) =~= decimal_of(n) + decimal_of(d));
    }
    let padded = padded_decimal_of(n, width);
    let digits = decimal_of(n);
    assert(digits.is_suffix_of(padded)) by {
        assert(padded.subrange(padded.len() - digits.len(), padded.len() as int) =~= digits);
    }
}

/// Bytes are written in hexadecimal notation one after the other, two lower-case digits each, the
/// higher half first.
pub proof fn law_bytes_are_written_in_hexadecimal(a: Seq<u8>, b: Seq<u8>, byte: u8)
    ensures
        hex_of(a + b) == hex_of(a) + hex_of(b),
        hex_of(seq![byte]).len() == 2,
        ({
            let high = byte as u32 / 16;
            let low = byte as u32 % 16;
            let text = hex_of(seq![byte]);
            &&& text[0] as u32 == if high < 10 {
                48 + high
            } else {
                87 + high
            }
            &&& text[1] as u32 == if low < 10 {
                48 + low
            } else {
                87 + low
            }
        }),
{
    assert(hex_of(a + b) =~= hex_of(a) + hex_of(b));
}

/// Titles are compared without regard to ASCII capitals: each capital counts as its small letter, and
/// every other character as itself.
pub proof fn law_capitals_are_folded(text: Seq<char>, i: int)
    requires
        0 <= i < text.len(),
    ensures
        folded(text).len() == text.len(),
        65 <= text[i] as u32 <= 90 ==> folded(text)[i] as u32 == text[i] as u32 + 32,
        !(65 <= text[i] as u32 <= 90) ==> folded(text)[i] == text[i],
{
}

/// A value is of the kind that it was made as.
pub proof fn law_values_have_their_kind(value: PropertyValue, kind: PropertyValueKind)
    ensures
        kind_of(value@) == kind <==> is_of_kind(value, kind),
{
}

/// The view of a value tells everything of it: values with the same view are of the same kind and
/// carry the same truth value, number, text, JSON, or items.
pub proof fn law_views_tell_values_apart(a: PropertyValue, b: PropertyValue)
    requires
        a@ == b@,
    ensures
        match (a, b) {
            (PropertyValue::Null, PropertyValue::Null) => true,
            (PropertyValue::Boolean(p), PropertyValue::Boolean(q)) => p == q,
            (PropertyValue::Integer(p), PropertyValue::Integer(q)) => p == q,
            (PropertyValue::Real(p), PropertyValue::Real(q)) => p.bits == q.bits && p.text@
                == q.text@,
            (PropertyValue::Text(p), PropertyValue::Text(q)) => p@ == q@,
            (PropertyValue::Date(p), PropertyValue::Date(q)) => p@ == q@,
            (PropertyValue::DateTime(p), PropertyValue::DateTime(q)) => p@ == q@,
            (PropertyValue::List(p), PropertyValue::List(q)) => p@.len() == q@.len() && forall|
                i: int,
            |
                0 <= i < p@.len() ==> (#[trigger] p@[i])@ == q@[i]@,
            (PropertyValue::Structured(p), PropertyValue::Structured(q)) => p@ == q@,
            _ => false,
        },
{
    match (a, b) {
        (PropertyValue::List(p), PropertyValue::List(q)) => {
            let s = a@->List_0;
            let t = b@->List_0;
            assert(s.len() == t.len());
            assert forall|i: int| 0 <= i < p@.len() implies (#[trigger] p@[i])@ == q@[i]@ by {
                assert(s[i] == t[i]);
                assert(s[i] == p[i]@ && t[i] == q[i]@);
            }
        },
        _ => {},
    }
}

/// A value is refused exactly where it is a real with all exponent bits set, a date or a date-time
/// whose text does not read as one, or a list with a refused item; nulls, truth values, integers,
/// texts and structured values are never refused.
pub proof fn law_values_are_checked(value: PropertyValue)
    ensures
        value_fault(value@) is Some ==> value_fault(value@)->0 is InvalidPropertyValue,
        match value {
            PropertyValue::Real(x) => value_fault(value@) is None <==> (x.bits
                / 0x10_0000_0000_0000) % 2048 < 2047,
            PropertyValue::Date(text) => value_fault(value@) is None <==> is_date(text@),
            PropertyValue::DateTime(text) => value_fault(value@) is None <==> is_date_time(text@),
            PropertyValue::List(items) => value_fault(value@) is None <==> forall|i: int|
                0 <= i < items@.len() ==> value_fault((#[trigger] items@[i])@) is None,
            _ => value_fault(value@) is None,
        },
    decreases value,
{
    match value {
        PropertyValue::List(items) => {
            let views = value@->List_0;
            assert forall|i: int| 0 <= i < items@.len() implies #[trigger] views[i] == items@[i]@
                && (value_fault(views[i]) is Some ==> value_fault(views[i])->0
                is InvalidPropertyValue) by {
                assert(views[i] == items[i]@);
                law_values_are_checked(items[i]);
            }
            lemma_items_are_checked(views, views.len());
            if value_fault(value@) is None {
                assert forall|i: int| 0 <= i < items@.len() implies value_fault(
                    (#[trigger] items@[i])@,
                ) is None by {
                    assert(views[i] == items@[i]@);
                }
            } else {
                let i = choose|i: int|
                    0 <= i < views.len() && value_fault(#[trigger] views[i]) is Some;
                assert(views[i] == items@[i]@);
            }
        },
        _ => {},
    }
}

proof fn lemma_items_are_checked(items: Seq<ValueView>, n: nat)
    requires
        n <= items.len(),
        forall|i: int|
            0 <= i < items.len() && value_fault(#[trigger] items[i]) is Some ==> value_fault(
                items[i],
            )->0 is InvalidPropertyValue,
    ensures
        items_fault(items, n) is None <==> forall|i: int|
            0 <= i < n ==> value_fault(#[trigger] items[i]) is None,
        items_fault(items, n) is Some ==> items_fault(items, n)->0 is InvalidPropertyValue,
        items_fault(items, n) is Some ==> exists|i: int|
            0 <= i < n && value_fault(#[trigger] items[i]) is Some,
    decreases n,
{
    if n > 0 {
        lemma_items_are_checked(items, (n - 1) as nat);
        if items_fault(items, (n - 1) as nat) is None {
            if value_fault(items[n - 1]) is Some {
                assert(value_fault(items[n - 1]) is Some);
            }
        }
    }
}

/// Reals are ordered as numbers: those without the sign bit by their bits; those with it below or
/// at zero, the greater bits first; and the two zeros are the same.
pub proof fn law_reals_are_ordered(a: u64, b: u64)
    ensures
        ({
            let sign = 0x8000_0000_0000_0000u64;
            &&& a < sign && b < sign ==> (real_rank(a) < real_rank(b) <==> a < b)
            &&& a >= sign && b >= sign ==> (real_rank(a) < real_rank(b) <==> a > b)
            &&& a > sign && b < sign ==> real_rank(a) < real_rank(b)
            &&& a == sign && 0 < b < sign ==> real_rank(a) < real_rank(b)
            &&& real_rank(sign) == real_rank(0)
            &&& real_rank(a) == real_rank(b) ==> a == b || (a == sign && b == 0) || (a == 0 && b
                == sign)
        }),
{
}

/// Only lists and structured values have a JSON carrier. That of a structured value is its JSON; that
/// of a list holds the carriers of its items, in their order, between brackets.
pub proof fn law_lists_are_carried_item_by_item(a: Seq<ValueView>, v: ValueView)
    ensures
        carrier_of(v) is Some <==> v is List || v is Structured,
        v is Structured ==> carrier_of(v)->0 == v->Structured_0,
        carrier_of(ValueView::List(Seq::empty()))->0 == "[]"@,
        ({
            let kind = "{\"kind\":\""@ + kind_name(kind_of(v)) + "\""@;
            let payload = match v {
                ValueView::Null => ""@,
                ValueView::Boolean(b) => if b {
                    "true"@
                } else {
                    "false"@
                },
                ValueView::Integer(n) => signed_decimal_of(n as int),
                ValueView::Real(x) => x.text,
                ValueView::Text(t) => json_string_of(t),
                ValueView::Date(t) => json_string_of(t),
                ValueView::DateTime(t) => json_string_of(t),
                ValueView::List(_) => carrier_of(v)->0,
                ValueView::Structured(json) => json,
            };
            let item = if v is Null {
                kind + "}"@
            } else {
                kind + ",\"value\":"@ + payload + "}"@
            };
            carrier_of(ValueView::List(a.push(v)))->0 == carrier_of(
                ValueView::List(a),
            )->0.drop_last() + (if a.len() == 0 {
                ""@
            } else {
                ","@
            }) + item + "]"@
        }),
{
    reveal_strlit("[");
    reveal_strlit("]");
    reveal_strlit("[]");
    reveal_strlit("{\"kind\":\"null\"}");
    reveal_strlit("{\"kind\":\"");
    reveal_strlit("\",\"value\":");
    reveal_strlit(",\"value\":");
    reveal_strlit("\"");
    reveal_strlit("}");
    reveal_strlit("null");
    let longer = a.push(v);
    lemma_items_prefix(a, v, a.len());
    assert(carrier_of(ValueView::List(Seq::empty()))->0 =~= "[]"@);
    assert(carrier_of(ValueView::List(a))->0.drop_last() =~= items_json(a, a.len()));
    assert(longer[a.len() as int] == v);
    let item = crate::value::item_json(kind_of(v), crate::value::payload_json(v));
    let kind = "{\"kind\":\""@ + kind_name(kind_of(v)) + "\""@;
    if v is Null {
        assert(item =~= kind + "}"@);
    } else {
        assert(item =~= kind + ",\"value\":"@ + crate::value::payload_json(v) + "}"@);
    }
}

proof fn lemma_items_prefix(a: Seq<ValueView>, v: ValueView, n: nat)
    requires
        n <= a.len(),
    ensures
        items_json(a.push(v), n) == items_json(a, n),
    decreases n,
{
    if n > 0 {
        lemma_items_prefix(a, v, (n - 1) as nat);
        assert(a.push(v)[n - 1] == a[n - 1]);
    }
}

/// Whether two optional texts are alike: both missing, or both there with the same characters.
pub open spec fn alike(a: Option<String>, b: Option<String>) -> bool {
    match (a, b) {
        (None, None) => true,
        (Some(s), Some(t)) => s@ == t@,
        _ => false,
    }
}

/// The view of a Relationship, and that of a definition, tells everything of it.
pub proof fn law_views_tell_facts_apart(
    r: (Relationship, Relationship),
    p: (PropertyDefinition, PropertyDefinition),
    d: (RelationshipDefinition, RelationshipDefinition),
)
    ensures
        r.0@ == r.1@ ==> r.0.source == r.1.source && r.0.target == r.1.target && r.0.key@
            == r.1.key@,
        p.0@ == p.1@ ==> p.0.key@ == p.1.key@ && p.0.label@ == p.1.label@ && alike(
            p.0.description,
            p.1.description,
        ) && p.0.expected_value_kind == p.1.expected_value_kind && p.0.state == p.1.state && alike(
            p.0.replacement_key,
            p.1.replacement_key,
        ) && p.0.origin@ == p.1.origin@ && p.0.version == p.1.version,
        d.0@ == d.1@ ==> d.0.key@ == d.1.key@ && d.0.forward_label@ == d.1.forward_label@ && alike(
            d.0.inverse_label,
            d.1.inverse_label,
        ) && alike(d.0.description, d.1.description) && d.0.state == d.1.state && alike(
            d.0.replacement_key,
            d.1.replacement_key,
        ) && d.0.origin@ == d.1.origin@ && d.0.version == d.1.version,
{
}

/// The views of what the Index answers tell everything of it.
pub proof fn law_views_tell_answers_apart(
    l: (IndexedRelationship, IndexedRelationship),
    n: (GraphNode, GraphNode),
    e: (GraphEdge, GraphEdge),
    h: (SearchHit, SearchHit),
)
    ensures
        l.0@ == l.1@ ==> l.0.source == l.1.source && l.0.relationship_key@ == l.1.relationship_key@
            && l.0.target == l.1.target && alike(l.0.unresolved_target, l.1.unresolved_target)
            && l.0.provenance == l.1.provenance && alike(l.0.inverse_label, l.1.inverse_label)
            && alike(l.0.source_kind, l.1.source_kind) && alike(
            l.0.source_locator,
            l.1.source_locator,
        ) && alike(l.0.parser, l.1.parser) && l.0.start_offset == l.1.start_offset
            && l.0.end_offset == l.1.end_offset,
        n.0@ == n.1@ ==> n.0.node_id == n.1.node_id && n.0.title@ == n.1.title@ && n.0.is_orphan
            == n.1.is_orphan,
        e.0@ == e.1@ ==> e.0.source == e.1.source && e.0.relationship_key@ == e.1.relationship_key@
            && e.0.target == e.1.target && alike(e.0.unresolved_target, e.1.unresolved_target)
            && e.0.provenance == e.1.provenance,
        h.0@ == h.1@ ==> h.0.node_id == h.1.node_id && h.0.title@ == h.1.title@
            && h.0.source_kind@ == h.1.source_kind@ && h.0.snippet@ == h.1.snippet@ && h.0.rank
            == h.1.rank,
{
}

/// The views of content tell everything of it: those of a document, and the place and the row of a
/// Relationship found in content together.
pub proof fn law_views_tell_content_apart(
    d: (SearchDocumentInput, SearchDocumentInput),
    l: (DerivedRelationshipInput, DerivedRelationshipInput),
)
    ensures
        d.0@ == d.1@ ==> d.0.document_key@ == d.1.document_key@ && d.0.node_id == d.1.node_id
            && d.0.source_kind@ == d.1.source_kind@ && d.0.title@ == d.1.title@ && d.0.body@
            == d.1.body@ && d.0.metadata@ == d.1.metadata@ && alike(
            d.0.source_locator,
            d.1.source_locator,
        ) && d.0.source_fingerprint@ == d.1.source_fingerprint@,
        derived_key(l.0) == derived_key(l.1) ==> l.0.source == l.1.source
            && l.0.relationship_key@ == l.1.relationship_key@ && l.0.start_offset
            == l.1.start_offset && l.0.end_offset == l.1.end_offset && l.0.source_kind@
            == l.1.source_kind@ && l.0.parser@ == l.1.parser@,
        derived_row(l.0) == derived_row(l.1) ==> l.0.target == l.1.target && l.0.target_text@
            == l.1.target_text@ && alike(l.0.source_locator, l.1.source_locator),
{
}

/// The view of an error tells which one it is and what it says, and its category follows from which
/// one it is.
pub proof fn law_errors_have_their_category(e: CoreError, f: CoreError)
    ensures
        match e {
            CoreError::NotFound { .. } => category_of(e@) is NotFound,
            CoreError::AlreadyExists { .. } => category_of(e@) is AlreadyExists,
            CoreError::InvalidNodeId(_) => category_of(e@) is InvalidId,
            CoreError::InvalidProperty(_) => category_of(e@) is InvalidProperty,
            CoreError::InvalidPropertyValue(_) => category_of(e@) is InvalidPropertyValue,
            CoreError::InvalidRelationship(_) => category_of(e@) is InvalidRelationship,
            CoreError::DefinitionNotFound(_) => category_of(e@) is DefinitionNotFound,
            CoreError::Conflict(_) => category_of(e@) is Conflict,
            CoreError::PostCommitFailure { .. } => category_of(e@) is PostCommitFailure,
            CoreError::Io { permission_denied, .. } => if permission_denied {
                category_of(e@) is PermissionDenied
            } else {
                category_of(e@) is StorageUnavailable
            },
            CoreError::Database(_) => category_of(e@) is OperationFailed,
            CoreError::UnsupportedSchema { .. } | CoreError::CorruptStore { .. } => category_of(e@)
                is IntegrityFailure,
            CoreError::IndexUnavailable(_) | CoreError::ProtectedStoreUnavailable(_)
            | CoreError::LockPoisoned(_) | CoreError::CloseStore { .. } => category_of(e@)
                is StorageUnavailable,
        },
        e@ == f@ ==> match (e, f) {
            (
                CoreError::NotFound { entity: p, identifier: q },
                CoreError::NotFound { entity: s, identifier: t },
            ) => p@ == s@ && q@ == t@,
            (
                CoreError::AlreadyExists { entity: p, identifier: q },
                CoreError::AlreadyExists { entity: s, identifier: t },
            ) => p@ == s@ && q@ == t@,
            (CoreError::InvalidNodeId(p), CoreError::InvalidNodeId(q)) => p@ == q@,
            (CoreError::InvalidProperty(p), CoreError::InvalidProperty(q)) => p@ == q@,
            (CoreError::InvalidPropertyValue(p), CoreError::InvalidPropertyValue(q)) => p@ == q@,
            (CoreError::InvalidRelationship(p), CoreError::InvalidRelationship(q)) => p@ == q@,
            (CoreError::DefinitionNotFound(p), CoreError::DefinitionNotFound(q)) => p@ == q@,
            (CoreError::Conflict(p), CoreError::Conflict(q)) => p@ == q@,
            (CoreError::Database(p), CoreError::Database(q)) => p@ == q@,
            (CoreError::IndexUnavailable(p), CoreError::IndexUnavailable(q)) => p@ == q@,
            (
                CoreError::ProtectedStoreUnavailable(p),
                CoreError::ProtectedStoreUnavailable(q),
            ) => p@ == q@,
            (CoreError::LockPoisoned(p), CoreError::LockPoisoned(q)) => p@ == q@,
            (
                CoreError::PostCommitFailure { revision: r, follow_up: p, reason: q },
                CoreError::PostCommitFailure { revision: s, follow_up: t, reason: u },
            ) => r == s && p@ == t@ && q@ == u@,
            (
                CoreError::UnsupportedSchema { store: p, found: a, supported: b },
                CoreError::UnsupportedSchema { store: q, found: c, supported: d },
            ) => p@ == q@ && a == c && b == d,
            (
                CoreError::CorruptStore { store: p, reason: q },
                CoreError::CorruptStore { store: s, reason: t },
            ) => p@ == s@ && q@ == t@,
            (
                CoreError::CloseStore { store: p, message: q },
                CoreError::CloseStore { store: s, message: t },
            ) => p@ == s@ && q@ == t@,
            (
                CoreError::Io { permission_denied: a, message: p },
                CoreError::Io { permission_denied: b, message: q },
            ) => a == b && p@ == q@,
            _ => false,
        },
{
}

/// What an error says holds the words that it was made with.
pub proof fn law_errors_say_what_they_were_made_with(e: ErrorView)
    ensures
        match e {
            ErrorView::Io { message: words, .. } | ErrorView::Database(words)
            | ErrorView::InvalidNodeId(words) | ErrorView::InvalidProperty(words)
            | ErrorView::InvalidPropertyValue(words) | ErrorView::InvalidRelationship(words)
            | ErrorView::DefinitionNotFound(words) | ErrorView::Conflict(words)
            | ErrorView::IndexUnavailable(words) | ErrorView::ProtectedStoreUnavailable(words)
            | ErrorView::CloseStore { message: words, .. } | ErrorView::PostCommitFailure {
                reason: words,
                ..
            } | ErrorView::CorruptStore { reason: words, .. } | ErrorView::NotFound {
                identifier: words,
                ..
            } | ErrorView::AlreadyExists { identifier: words, .. } => words.is_suffix_of(
                message_of(e),
            ),
            ErrorView::LockPoisoned(words) => words.is_prefix_of(message_of(e)),
            ErrorView::UnsupportedSchema { store, found, supported } => store.is_prefix_of(
                message_of(e),
            ) && decimal_of(supported as nat).is_suffix_of(message_of(e)),
        },
        match e {
            ErrorView::NotFound { entity, .. } | ErrorView::AlreadyExists { entity, .. } =>
                entity.is_prefix_of(message_of(e)),
            ErrorView::CorruptStore { store, .. } => store.is_prefix_of(message_of(e)),
            _ => true,
        },
{
    let said = message_of(e);
    match e {
        ErrorView::Io { message: words, .. } | ErrorView::Database(words)
        | ErrorView::InvalidNodeId(words) | ErrorView::InvalidProperty(words)
        | ErrorView::InvalidPropertyValue(words) | ErrorView::InvalidRelationship(words)
        | ErrorView::DefinitionNotFound(words) | ErrorView::Conflict(words)
        | ErrorView::IndexUnavailable(words) | ErrorView::ProtectedStoreUnavailable(words)
        | ErrorView::CloseStore { message: words, .. } | ErrorView::PostCommitFailure {
            reason: words,
            ..
        } | ErrorView::CorruptStore { reason: words, .. } | ErrorView::NotFound {
            identifier: words,
            ..
        } | ErrorView::AlreadyExists { identifier: words, .. } => {
            assert(said.subrange(said.len() - words.len(), said.len() as int) =~= words);
        },
        ErrorView::LockPoisoned(words) => {
            assert(said.subrange(0, words.len() as int) =~= words);
        },
        ErrorView::UnsupportedSchema { store, found, supported } => {
            let digits = decimal_of(supported as nat);
            assert(said.subrange(0, store.len() as int) =~= store);
            assert(said.subrange(said.len() - digits.len(), said.len() as int) =~= digits);
        },
    }
    match e {
        ErrorView::NotFound { entity, .. } | ErrorView::AlreadyExists { entity, .. } => {
            assert(said.subrange(0, entity.len() as int) =~= entity);
        },
        ErrorView::CorruptStore { store, .. } => {
            assert(said.subrange(0, store.len() as int) =~= store);
        },
        _ => {},
    }
}

/// A text reads as an ID only where it reads as sixteen bytes of version seven; else it is no ID.
pub proof fn law_texts_read_as_ids(text: Seq<char>)
    ensures
        match id_read(text) {
            Ok(bytes) => uuid_parse(text) == Ok::<Seq<u8>, Seq<char>>(bytes) && uuid_version(bytes)
                == 7,
            Err(e) => e is InvalidNodeId,
        },
        uuid_parse(text) is Ok && uuid_parse(text)->Ok_0.len() == 16 && uuid_version(
            uuid_parse(text)->Ok_0,
        ) == 7 ==> id_read(text) is Ok,
{
    if uuid_parse(text) is Ok && uuid_parse(text)->Ok_0.len() == 16 {
        let bytes = uuid_parse(text)->Ok_0;
        if uuid_version(bytes) == 7 {
            assert(bytes[6] != 0);
        }
    }
}

/// A number is read digit by digit: one digit more makes ten times as much and that digit, and any
/// other character makes it no number. A plus in front is allowed, and nothing beyond 64 bits.
pub proof fn law_numbers_are_read_in_decimal(text: Seq<char>, c: char)
    ensures
        digits_value(Seq::empty()) == Some(0nat),
        digits_value(text.push(c)) is Some <==> digits_value(text) is Some && 48 <= c as u32 <= 57,
        digits_value(text.push(c)) is Some ==> digits_value(text.push(c))->0 == 10 * digits_value(
            text,
        )->0 + (c as u32 - 48),
        text.len() > 0 && text[0] != '+' ==> (u64_of(text) is Some <==> digits_value(text) is Some
            && digits_value(text)->0 <= u64::MAX),
        text.len() > 0 && text[0] != '+' && u64_of(text) is Some ==> u64_of(text)->0
            == digits_value(text)->0,
        text.len() > 0 && text[0] != '+' ==> u64_of(seq!['+'] + text) == u64_of(text),
        u64_of(Seq::empty()) is None,
{
    assert(text.push(c).drop_last() =~= text);
    assert((seq!['+'] + text).drop_first() =~= text);
    assert((seq!['+'] + text)[0] == '+');
}

} // verus!
