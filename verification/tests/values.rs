//! Identifiers, values, their columns, and the texts they are written as.
use genesis_core::codec::{
    change_descriptor, change_from_db, change_to_db, decode_node_id, decode_value,
    decode_indexed_value, definition_state_from_db, definition_state_to_db, encode_value, kind_from_db,
    lifecycle_from_db, lifecycle_to_db, relationship_target,
};
use genesis_core::record_store::model::{ChangeKind, ChangeRow};
use genesis_core::text::{decimal, hex, parse_hex, parse_u64};
use genesis_core::value::kind_to_db;
use genesis_core::{
    CoreError, CoreErrorCategory, DefinitionState, JsonText, LifecycleState, Node, NodeId,
    PropertyValue, PropertyValueKind, RealNumber,
};

fn float(value: f64) -> PropertyValue {
    PropertyValue::Real(RealNumber { bits: value.to_bits(), text: format!("{value:?}") })
}

fn structured(text: &str) -> PropertyValue {
    PropertyValue::Structured(JsonText::parse(text).expect("JSON"))
}

fn every_kind() -> Vec<PropertyValue> {
    vec![
        PropertyValue::Null,
        PropertyValue::Boolean(true),
        PropertyValue::Integer(4),
        float(4.5),
        PropertyValue::Text("Genesis".to_owned()),
        PropertyValue::Date("2026-09-04".to_owned()),
        PropertyValue::DateTime("2026-09-04T12:00:00-07:00".to_owned()),
        PropertyValue::List(vec![PropertyValue::Integer(1)]),
        structured("{\"key\": \"value\"}"),
    ]
}

#[test]
fn generated_ids_are_non_nil_uuid_v7_and_round_trip() {
    let id = NodeId::new();
    assert_ne!(id.as_bytes(), &[0; 16]);
    assert_eq!(id.to_string().parse::<NodeId>().expect("parse ID"), id);
    assert_eq!(id.to_string(), id.to_string().to_lowercase());
}

#[test]
fn rejects_malformed_nil_and_non_v7_ids() {
    assert!("not-a-uuid".parse::<NodeId>().is_err());
    assert!("00000000-0000-0000-0000-000000000000".parse::<NodeId>().is_err());
    assert!("550e8400-e29b-41d4-a716-446655440000".parse::<NodeId>().is_err());
}

#[test]
fn serde_uses_standard_lowercase_hyphenated_text() {
    let id = NodeId::new();
    let json = serde_json::to_string(&id.to_string()).expect("serialize ID");
    assert_eq!(json, format!("\"{}\"", id.to_string()));
    let text: String = serde_json::from_str(&json).expect("deserialize ID");
    assert_eq!(NodeId::parse(&text).expect("deserialize ID"), id);
}

#[test]
fn an_id_is_written_and_read_in_the_same_way() {
    let bytes = [1, 0x8f, 0xab, 0xcd, 0xef, 1, 0x72, 0x34, 0x81, 2, 3, 4, 5, 6, 7, 8];
    let id = NodeId::from_bytes(bytes).expect("version 7");
    assert_eq!(id.to_string(), "018fabcd-ef01-7234-8102-030405060708");
    assert_eq!(NodeId::parse("018FABCD-EF01-7234-8102-030405060708").expect("upper case"), id);
    assert_eq!(NodeId::parse("018fabcdef0172348102030405060708").expect("no hyphens"), id);
    assert_eq!(NodeId::from_uuid(bytes).expect("the same"), id);
    assert_eq!(id.into_bytes(), bytes);
    assert_eq!(decode_node_id(&bytes.to_vec()).expect("column"), id);
    let error = NodeId::from_bytes([0; 16]).expect_err("nil");
    assert_eq!(error.category(), CoreErrorCategory::InvalidId);
    let mut other = bytes;
    other[6] = 0x42;
    assert!(NodeId::from_bytes(other).is_err());
}

#[test]
fn ids_are_ordered_by_their_bytes() {
    let mut bytes = [9; 16];
    bytes[6] = 0x70;
    bytes[8] = 0x80;
    let low = NodeId::from_bytes(bytes).expect("low");
    bytes[15] = 10;
    let high = NodeId::from_bytes(bytes).expect("high");
    assert!(low < high);
    assert!(low.to_string() < high.to_string());
}

#[test]
fn blank_node_requires_no_title_type_path_or_content() {
    let node = Node::blank();
    let Node { id, lifecycle_state } = node;
    assert_eq!(lifecycle_state, LifecycleState::Active);
    assert_eq!(NodeId::from_bytes(id.into_bytes()).expect("a valid ID"), id);
}

#[test]
fn preserves_all_locked_property_value_kinds() {
    let kinds = every_kind().iter().map(|value| value.kind()).collect::<Vec<_>>();
    assert_eq!(
        kinds,
        [
            PropertyValueKind::Null,
            PropertyValueKind::Boolean,
            PropertyValueKind::Integer,
            PropertyValueKind::Real,
            PropertyValueKind::Text,
            PropertyValueKind::Date,
            PropertyValueKind::DateTime,
            PropertyValueKind::List,
            PropertyValueKind::Structured,
        ]
    );
}

#[test]
fn list_and_structured_values_have_portable_json_carriers() {
    let list = PropertyValue::List(vec![PropertyValue::Integer(1)]);
    let structured = structured("{\"b\": 2, \"a\": 1}");

    assert_eq!(
        list.canonical_json().expect("list JSON"),
        r#"[{"kind":"integer","value":1}]"#
    );
    assert_eq!(
        structured.canonical_json().expect("structured JSON"),
        r#"{"a":1,"b":2}"#
    );
}

#[test]
fn every_item_has_its_own_carrier_in_a_list() {
    let items = vec![
        PropertyValue::Null,
        PropertyValue::Boolean(false),
        PropertyValue::Integer(-12),
        float(2.5),
        PropertyValue::Text("a \"quoted\"\n\u{1}∆\\".to_owned()),
        PropertyValue::Date("2026-09-04".to_owned()),
        PropertyValue::DateTime("2026-09-04T12:00:00Z".to_owned()),
        PropertyValue::List(vec![]),
        structured("[1, {\"x\": null}]"),
    ];
    assert_eq!(
        PropertyValue::List(items).canonical_json().expect("list JSON"),
        concat_lines(&[
            r#"[{"kind":"null"},{"kind":"boolean","value":false},{"kind":"integer","value":-12},"#,
            r#"{"kind":"real","value":2.5},{"kind":"text","value":"a \"quoted\"\n\u0001∆\\"},"#,
            r#"{"kind":"date","value":"2026-09-04"},"#,
            r#"{"kind":"date_time","value":"2026-09-04T12:00:00Z"},"#,
            r#"{"kind":"list","value":[]},{"kind":"structured","value":[1,{"x":null}]}]"#,
        ])
    );
    assert_eq!(PropertyValue::Integer(1).canonical_json(), None);
}

fn concat_lines(lines: &[&str]) -> String {
    lines.iter().map(|line| line.to_string()).collect()
}

#[test]
fn values_that_are_not_portable_are_refused() {
    for value in [f64::NAN, f64::INFINITY, f64::NEG_INFINITY] {
        let error = float(value).validate().expect_err("not finite");
        assert_eq!(error.to_string(), "invalid property value: real values must be finite");
    }
    assert!(float(f64::MAX).validate().is_ok());
    for text in ["2026-02-30", "2026-9-4x", "", "04.09.2026"] {
        assert!(PropertyValue::Date(text.to_owned()).validate().is_err(), "{text}");
    }
    for text in ["2026-09-04", "2026-09-04 25:00:00Z", "noon"] {
        assert!(PropertyValue::DateTime(text.to_owned()).validate().is_err(), "{text}");
    }
    assert!(PropertyValue::DateTime("2026-09-04T12:00:00.5+02:00".to_owned()).validate().is_ok());
    assert!(PropertyValue::List(vec![PropertyValue::Null, float(f64::NAN)]).validate().is_err());
    assert!(JsonText::parse("{").is_err());
    assert_eq!(JsonText::parse(" [ 1 , 2 ] ").expect("JSON").as_str(), "[1,2]");
}

#[test]
fn reals_are_ordered_as_numbers() {
    let number = |value: f64| RealNumber { bits: value.to_bits(), text: format!("{value:?}") };
    let order = [f64::NEG_INFINITY, -2.5, -1.0, -0.0, 0.5, 1.0, 1e300, f64::INFINITY];
    for pair in order.windows(2) {
        assert!(number(pair[0]).is_less(&number(pair[1])));
        assert!(!number(pair[1]).is_less(&number(pair[0])));
    }
    assert!(!number(-0.0).is_less(&number(0.0)));
    assert!(!number(0.0).is_less(&number(-0.0)));
    assert!(!number(f64::NAN).is_finite());
    assert!(number(0.1).is_finite());
}

#[test]
fn values_come_back_from_their_columns() {
    for value in every_kind() {
        let row = encode_value(&value).expect("encode");
        assert_eq!(row.kind, kind_to_db(value.kind()));
        let items = match &value {
            PropertyValue::List(items) => Ok(items.clone()),
            _ => Err("not read".to_owned()),
        };
        assert_eq!(decode_value(row, items).expect("decode"), value);
    }
    let mut row = encode_value(&PropertyValue::Integer(1)).expect("encode");
    row.integer = None;
    assert!(matches!(
        decode_value(row, Err(String::new())),
        Err(CoreError::CorruptStore { store: "Record Store", .. })
    ));
    let mut row = encode_value(&PropertyValue::Null).expect("encode");
    row.kind = "decimal".to_owned();
    assert!(matches!(
        decode_indexed_value(row, Err(String::new())),
        Err(CoreError::CorruptStore { store: "Index Store", .. })
    ));
    assert!(encode_value(&float(f64::NAN)).is_err());
}

#[test]
fn invalid_lifecycle_value_is_rejected() {
    assert!(lifecycle_from_db("archived").is_err());
    for state in [LifecycleState::Active, LifecycleState::Tombstoned] {
        assert_eq!(lifecycle_from_db(lifecycle_to_db(state)).expect("state"), state);
    }
    for state in [DefinitionState::Active, DefinitionState::Deprecated] {
        assert_eq!(definition_state_from_db(definition_state_to_db(state)).expect("state"), state);
    }
    for kind in ["null", "boolean", "integer", "real", "text", "date", "date_time", "list", "structured"] {
        assert_eq!(kind_to_db(kind_from_db(kind).expect("kind")), kind);
    }
    assert!(kind_from_db("decimal").is_err());
}

#[test]
fn short_node_uuid_blob_is_rejected() {
    assert!(matches!(
        decode_node_id(&vec![1, 2, 3]),
        Err(CoreError::CorruptStore { .. })
    ));
    assert!(decode_node_id(&vec![0; 16]).is_err());
}

#[test]
fn changes_name_their_kind_and_their_target() {
    for name in ["node_created", "property_set", "relationship_removed", "property_definition_updated"] {
        assert_eq!(change_to_db(change_from_db(name)), name);
    }
    assert_eq!(change_from_db("something_else"), ChangeKind::Unknown);
    let target = NodeId::new();
    let change = ChangeRow {
        revision: 3,
        ordinal: 0,
        kind: ChangeKind::RelationshipAdded,
        node_id: Some(NodeId::new()),
        definition_key: Some("links".to_owned()),
        target: Some(target),
        replacement_key: None,
    };
    let descriptor = change_descriptor(&change).expect("a descriptor");
    assert_eq!(descriptor, format!("{{\"target\":\"{}\"}}", target.to_string()));
    assert_eq!(relationship_target(&descriptor), Some(target));
    assert_eq!(relationship_target("{}"), None);
    assert_eq!(relationship_target("not JSON"), None);
    assert_eq!(relationship_target("{\"target\":\"nobody\"}"), None);
}

#[test]
fn numbers_and_bytes_are_written_and_read_in_the_same_way() {
    for n in [0u64, 7, 10, 4_096, u64::MAX] {
        assert_eq!(decimal(n as u128), n.to_string());
        assert_eq!(parse_u64(&n.to_string()), Some(n));
    }
    for text in ["", "-1", "1x", "18446744073709551616"] {
        assert_eq!(parse_u64(text), None, "{text}");
    }
    assert_eq!(hex(&[0, 1, 0xab, 0xff]), "0001abff");
    assert_eq!(parse_hex(b"0001ABff"), Some(vec![0, 1, 0xab, 0xff]));
    assert_eq!(parse_hex(b"0g"), None);
}

#[test]
fn an_id_is_parsed_from_a_str_as_by_its_own_parser() {
    let id: NodeId = "01890a5d-ac96-774b-bcce-b302099a8057".parse().expect("an ID");
    assert_eq!(id, NodeId::parse("01890A5D-AC96-774B-BCCE-B302099A8057").expect("an ID"));
    for text in ["", "01890a5d", "00000000-0000-0000-0000-000000000000"] {
        let parsed = text.parse::<NodeId>().expect_err("no ID");
        let refused = NodeId::parse(text).expect_err("no ID");
        assert_eq!(parsed.to_string(), refused.to_string());
    }
}

#[test]
fn structured_values_without_fractions_come_back_as_they_were() {
    for text in [
        "{\"b\":[1,-2,true,null],\"a\":{\"version 1.5\":\"2e3 \\\" 4.5\"}}",
        "[18446744073709551615,-9223372036854775808,\"\\u0001\\n\"]",
        " \"7.25\" ",
    ] {
        let value = structured(text);
        let row = encode_value(&value).expect("encode");
        let columns = [
            row.text.is_some(),
            row.integer.is_some(),
            row.real.is_some(),
            row.json.is_some(),
        ];
        assert_eq!(columns, [false, false, false, true]);
        assert_eq!(row.kind, "structured");
        let json = row.json.clone().expect("JSON");
        assert_eq!(JsonText::parse(&json).expect("JSON").as_str(), json);
        assert_eq!(decode_value(row, Err("no list".to_owned())).expect("decode"), value);
    }
    assert_eq!(
        JsonText::parse("{\"b\": 1, \"a\": 2}").expect("JSON").as_str(),
        "{\"a\":2,\"b\":1}"
    );
}
