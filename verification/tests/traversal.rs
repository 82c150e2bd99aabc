//! Keyset traversal and stable snapshots.
use std::collections::BTreeSet;

use genesis_core::cursor::{decode_cursor, encode_cursor};
use genesis_core::index::schema::IndexFile;
use genesis_core::record_store::model::RecordStore;
use genesis_core::security::{BoundaryEvidence, StorageBoundary};
use genesis_core::{
    CoreError, CoreErrorCategory, CoreState, CursorPage, LifecycleState, Mutation,
    NewPropertyDefinition, NewRelationshipDefinition, PropertyValue, ReadCursor,
};

fn with_records(records: RecordStore) -> CoreState {
    let opened = CoreState::open(
        records,
        &IndexFile::Missing,
        StorageBoundary::Unprotected,
        BoundaryEvidence {
            root_is_dir: true,
            fingerprint: Ok(String::new()),
            sentinel: Ok(String::new()),
        },
        Err(CoreError::Database("no recovery material".to_owned())),
    );
    match opened {
        Ok(core) => core,
        Err(error) => panic!("{}", error.to_string()),
    }
}

fn open() -> CoreState {
    with_records(RecordStore::new())
}

fn same_records(core: &CoreState) -> CoreState {
    match RecordStore::load(&core.record_store().to_rows()) {
        Ok(records) => with_records(records),
        Err(error) => panic!("{}", error.to_string()),
    }
}

#[test]
fn cursor_traversal_crosses_one_thousand_without_offset_drift() {
    let mut core = open();
    let original = core.create_nodes(1_205).expect("create Nodes");
    let initial_order = core.list_nodes();

    let first = core.list_nodes_cursor(400, None).expect("first cursor page");
    assert_eq!(first.items.len(), 400);
    let changed = initial_order[1_000].id;
    let tombstoned = initial_order[1_100].id;
    let inserted = core.create_node().expect("concurrent insert");
    core.set_property(changed, "changed".to_owned(), PropertyValue::Boolean(true))
        .expect("concurrent sort-key update");
    core.tombstone_node(tombstoned).expect("concurrent tombstone");

    let mut traversed = first.items;
    let mut cursor = first.next_cursor;
    while let Some(next) = cursor {
        let page = core.list_nodes_cursor(400, Some(&next)).expect("continued cursor page");
        traversed.extend(page.items);
        cursor = page.next_cursor;
    }

    let ids = traversed.iter().map(|node| node.id).collect::<Vec<_>>();
    let unique = ids.iter().copied().collect::<BTreeSet<_>>();
    assert_eq!(ids.len(), unique.len(), "cursor traversal duplicated a Node");
    assert_eq!(ids.len(), original.len() - 2);
    assert!(!unique.contains(&inserted.id), "later insert crossed watermark");
    assert!(!unique.contains(&changed), "later update crossed watermark");
    assert!(!unique.contains(&tombstoned), "later tombstone crossed watermark");

    let invalid = ReadCursor::from_token("not-a-valid-token".to_owned());
    let error = core
        .list_nodes_cursor(10, Some(&invalid))
        .expect_err("invalid cursor must fail");
    assert_eq!(error.category(), CoreErrorCategory::Conflict);
}

#[test]
fn stable_snapshot_keeps_exact_state_while_another_connection_writes() {
    let mut primary = open();
    let original = primary.create_nodes(1_205).expect("create Nodes");
    let mut writer = same_records(&primary);
    let victim = original[1_100].id;
    let mut concurrent_insert = None;

    let scanned = primary
        .with_stable_read_snapshot(|snapshot| {
            let first = snapshot.nodes_page(500, None)?;
            concurrent_insert = Some(writer.create_node()?);
            writer.tombstone_node(victim)?;

            let mut nodes = first.items;
            let mut cursor = first.next_cursor;
            while let Some(next) = cursor {
                let page = snapshot.nodes_page(500, Some(&next))?;
                nodes.extend(page.items);
                cursor = page.next_cursor;
            }
            Ok(nodes)
        })
        .expect("stable scan");

    let inserted = concurrent_insert.expect("concurrent insert captured");
    assert_eq!(scanned.len(), original.len());
    assert!(scanned.iter().all(|node| node.lifecycle_state == LifecycleState::Active));
    assert!(scanned.iter().any(|node| node.id == victim));
    assert!(!scanned.iter().any(|node| node.id == inserted.id));

    let primary = same_records(&writer);
    let state = primary.get_node(victim).expect("post-snapshot Node");
    assert_eq!(state.lifecycle_state, LifecycleState::Tombstoned);
}

#[test]
fn stable_snapshot_covers_identity_facts_relationships_and_definitions() {
    let mut core = open();
    let source = core.create_node().expect("source");
    let target = core.create_node().expect("target");
    let retired = core.create_node().expect("retired");
    core.apply_batch(&[
        Mutation::SetProperty {
            node_id: source.id,
            key: "alpha".to_owned(),
            value: PropertyValue::Integer(1),
        },
        Mutation::SetProperty {
            node_id: source.id,
            key: "beta".to_owned(),
            value: PropertyValue::Text("two".to_owned()),
        },
        Mutation::AddRelationship {
            source: source.id,
            key: "links".to_owned(),
            target: target.id,
        },
    ])
    .expect("facts");
    core.register_property_definition(&NewPropertyDefinition {
        key: "alpha".to_owned(),
        label: "Alpha".to_owned(),
        description: None,
        expected_value_kind: None,
        origin: "test".to_owned(),
    })
    .expect("Property definition");
    core.register_relationship_definition(&NewRelationshipDefinition {
        key: "links".to_owned(),
        forward_label: "Links".to_owned(),
        inverse_label: None,
        description: None,
        origin: "test".to_owned(),
    })
    .expect("Relationship definition");
    core.tombstone_node(retired.id).expect("tombstone identity");
    core.purge_node(retired.id).expect("retire identity");

    core.with_stable_read_snapshot(|snapshot| {
        let ids = collect(snapshot.issued_ids_page(1, None)?, |cursor| {
            snapshot.issued_ids_page(1, Some(cursor))
        })?;
        assert!(ids.contains(&retired.id));

        let properties = collect(snapshot.properties_page(source.id, 1, None)?, |cursor| {
            snapshot.properties_page(source.id, 1, Some(cursor))
        })?;
        assert_eq!(properties.len(), 2);

        let relationships = collect(snapshot.relationships_page(1, None)?, |cursor| {
            snapshot.relationships_page(1, Some(cursor))
        })?;
        assert_eq!(relationships.len(), 1);

        assert_eq!(snapshot.property_definitions_page(1, None)?.items.len(), 1);
        assert_eq!(snapshot.relationship_definitions_page(1, None)?.items.len(), 1);

        let node_cursor = snapshot.nodes_page(1, None)?.next_cursor.expect("more than one Node");
        let mismatch = snapshot
            .issued_ids_page(1, Some(&node_cursor))
            .expect_err("cursor must be collection-bound");
        assert_eq!(mismatch.category(), CoreErrorCategory::Conflict);
        Ok(())
    })
    .expect("stable surfaces");
}

fn collect<T, F>(first: CursorPage<T>, mut next: F) -> Result<Vec<T>, CoreError>
where
    F: FnMut(&ReadCursor) -> Result<CursorPage<T>, CoreError>,
{
    let mut items = first.items;
    let mut cursor = first.next_cursor;
    while let Some(current) = cursor {
        let page = next(&current)?;
        items.extend(page.items);
        cursor = page.next_cursor;
    }
    Ok(items)
}

#[test]
fn cursor_rejects_out_of_range_and_inconsistent_revisions() {
    let mut core = open();
    core.create_nodes(3).expect("Nodes in one revision");
    let first = core.list_nodes_cursor(1, None).expect("first page");
    let cursor = first.next_cursor.expect("continuation");
    let bytes = cursor
        .token()
        .as_bytes()
        .chunks(2)
        .map(|pair| u8::from_str_radix(std::str::from_utf8(pair).unwrap(), 16).unwrap())
        .collect::<Vec<_>>();
    // Test-only decoding deliberately exercises the current private encoding.
    let original: serde_json::Value = serde_json::from_slice(&bytes).unwrap();
    for (watermark, ordering_revision) in [
        (1, u64::MAX),
        (1, i64::MAX as u64 + 1),
        (1, 2),
        (1, 0),
        (0, 1),
        (u64::MAX, 1),
    ] {
        let mut payload = original.clone();
        payload["revision"] = serde_json::Value::from(watermark);
        payload["after"][0] = serde_json::Value::from(ordering_revision.to_string());
        let token = serde_json::to_vec(&payload)
            .unwrap()
            .iter()
            .map(|byte| format!("{byte:02x}"))
            .collect::<String>();
        let error = core
            .list_nodes_cursor(1, Some(&ReadCursor::from_token(token)))
            .expect_err("invalid numeric cursor must not return an empty page");
        assert_eq!(error.category(), CoreErrorCategory::Conflict);
    }
    let next = core
        .list_nodes_cursor(1, Some(&cursor))
        .expect("unchanged valid cursor still works");
    assert_eq!(next.items.len(), 1);
    assert_ne!(next.items[0].id, first.items[0].id);
}

#[test]
fn a_cursor_reads_back_what_it_was_made_of() {
    let after = vec!["7".to_owned(), "quote \" and ∆".to_owned()];
    let cursor = encode_cursor("nodes", 12, &after);
    assert_eq!(
        cursor.token(),
        "7b2276657273696f6e223a312c22636f6c6c656374696f6e223a226e6f646573222c227265766973696f6e223a31322c226166746572223a5b2237222c2271756f7465205c2220616e6420e28886225d7d"
    );
    let payload = decode_cursor(&cursor, "nodes").expect("the same collection");
    assert_eq!(payload.revision, 12);
    assert_eq!(payload.after, after);
    assert!(decode_cursor(&cursor, "edges").is_err());
    let long = ReadCursor::from_token("0".repeat(8_194));
    assert!(decode_cursor(&long, "nodes").is_err());
}

#[test]
fn pages_of_a_snapshot_join_to_the_whole() {
    let mut core = open();
    let nodes = core.create_nodes(7).expect("Nodes");
    let mut expected = nodes.iter().map(|node| node.id).collect::<Vec<_>>();
    expected.sort();
    for size in 1..9 {
        let ids = core
            .with_stable_read_snapshot(|snapshot| {
                collect(snapshot.issued_ids_page(size, None)?, |cursor| {
                    snapshot.issued_ids_page(size, Some(cursor))
                })
            })
            .expect("scan");
        assert_eq!(ids, expected);
    }
}

#[test]
fn a_snapshot_cursor_of_another_revision_is_refused() {
    let mut core = open();
    core.create_nodes(3).expect("Nodes");
    let cursor = core
        .with_stable_read_snapshot(|snapshot| Ok(snapshot.nodes_page(1, None)?.next_cursor))
        .expect("scan")
        .expect("more");
    core.create_node().expect("another revision");
    let refused = core.with_stable_read_snapshot(|snapshot| {
        snapshot.nodes_page(1, Some(&cursor)).map(|page| page.items.len())
    });
    assert!(matches!(refused, Err(CoreError::Conflict(_))));
}

#[test]
fn pages_of_any_sizes_join_to_the_whole() {
    let mut core = open();
    let nodes = core.create_nodes(12).expect("Nodes");
    for node in &nodes {
        core.add_relationship(nodes[0].id, "links".to_owned(), node.id).expect("link");
    }
    let listed = core.list_nodes().iter().map(|node| node.id).collect::<Vec<_>>();
    let sizes = [3, 1, 5, 2, 1_000];

    let mut seen = Vec::new();
    let mut cursor = None;
    for size in sizes {
        let page = core.list_nodes_cursor(size, cursor.as_ref()).expect("page");
        seen.extend(page.items.iter().map(|node| node.id));
        cursor = page.next_cursor;
        assert_eq!(cursor.is_some(), seen.len() < 12);
    }
    assert_eq!(seen, listed);

    let targets = core
        .with_stable_read_snapshot(|snapshot| {
            let mut targets = Vec::new();
            let mut cursor = None;
            for size in sizes {
                let page = snapshot.relationships_page(size, cursor.as_ref())?;
                targets.extend(page.items.iter().map(|edge| edge.target));
                cursor = page.next_cursor;
            }
            assert!(cursor.is_none());
            Ok(targets)
        })
        .expect("scan");
    let mut expected = nodes.iter().map(|node| node.id).collect::<Vec<_>>();
    expected.sort();
    assert_eq!(targets, expected);
}

#[test]
fn writes_between_pages_take_away_what_they_change_and_nothing_else() {
    let mut core = open();
    let nodes = core.create_nodes(9).expect("Nodes");
    let listed = core.list_nodes().iter().map(|node| node.id).collect::<Vec<_>>();
    let mut seen = Vec::new();
    let mut cursor = None;
    for size in [2, 3, 1, 4] {
        let page = core.list_nodes_cursor(size, cursor.as_ref()).expect("page");
        seen.extend(page.items.iter().map(|node| node.id));
        cursor = page.next_cursor;
        if seen.len() == 2 {
            core.set_property(listed[6], "changed".to_owned(), PropertyValue::Null)
                .expect("a write ahead of the cursor");
            core.set_property(listed[0], "changed".to_owned(), PropertyValue::Null)
                .expect("a write behind the cursor");
            core.create_node().expect("a later Node");
        }
    }
    assert!(cursor.is_none());
    let mut expected = listed.clone();
    expected.remove(6);
    assert_eq!(seen, expected);
    assert_eq!(nodes.len(), seen.len() + 1);
}

fn cursor_of(json: &str) -> ReadCursor {
    ReadCursor::from_token(json.bytes().map(|byte| format!("{byte:02x}")).collect::<String>())
}

#[test]
fn a_cursor_is_an_object_or_an_array_of_its_four_parts() {
    let reads = |json: &str| decode_cursor(&cursor_of(json), "nodes");
    let expected =
        reads("{\"version\":1,\"collection\":\"nodes\",\"revision\":7,\"after\":[\"a\",\"b\"]}")
            .expect("a payload");
    assert_eq!(expected.revision, 7);
    assert_eq!(expected.after, ["a", "b"]);
    let deep = format!("{}{}", "[".repeat(400), "]".repeat(400));
    for json in [
        " { \"after\" : [ \"a\" , \"b\" ] ,\n\t\"revision\" : 7 , \"collection\" : \"nodes\" , \"version\" : 1 } \r\n"
            .to_owned(),
        "[1,\"nodes\",7,[\"a\",\"b\"]]".to_owned(),
        "{\"\\u0076ersion\":1,\"collection\":\"no\\u0064es\",\"revision\":7,\"after\":[\"a\",\"b\"]}"
            .to_owned(),
        "{\"x\":1e999,\"x\":{\"version\":2},\"version\":1,\"collection\":\"nodes\",\"revision\":7,\"after\":[\"a\",\"b\"]}"
            .to_owned(),
        format!(
            "{{\"version\":1,\"x\":{deep},\"collection\":\"nodes\",\"revision\":7,\"after\":[\"a\",\"b\"]}}"
        ),
    ] {
        assert_eq!(reads(&json).expect("a payload"), expected, "{json}");
    }
    for json in [
        "",
        "{}",
        "{",
        "null",
        "{\"version\":1,\"version\":1,\"collection\":\"nodes\",\"revision\":7,\"after\":[]}",
        "{\"version\":1,\"collection\":\"nodes\",\"revision\":7,\"after\":[],\"\\u0061fter\":[]}",
        "{\"version\":1,\"collection\":\"nodes\",\"revision\":7}",
        "{\"version\":1,\"collection\":\"nodes\",\"revision\":7,\"after\":[],}",
        "{\"version\":1,\"collection\":\"nodes\",\"revision\":7,\"after\":[]} x",
        "{\"version\":1 \"collection\":\"nodes\",\"revision\":7,\"after\":[]}",
        "{,\"version\":1,\"collection\":\"nodes\",\"revision\":7,\"after\":[]}",
        "{\"version\":1,\"collection\":\"nodes\",\"revision\":7,\"after\":[],\"x\":nul}",
        "{\"version\":1,\"collection\":\"nodes\",\"revision\":7,\"after\":[],\"x\":}",
        "{\"version\":1,\"collection\":\"nodes\",\"revision\":7,\"after\":[],x:1}",
        "{\"version\":256,\"collection\":\"nodes\",\"revision\":7,\"after\":[]}",
        "{\"version\":1,\"collection\":\"nodes\",\"revision\":-7,\"after\":[]}",
        "{\"version\":1,\"collection\":\"nodes\",\"revision\":7,\"after\":[1]}",
        "[1,\"nodes\",7]",
        "[1,\"nodes\",7,[],0]",
    ] {
        match reads(json) {
            Err(CoreError::Conflict(words)) => {
                assert_eq!(words, "invalid or unsupported read cursor", "{json}")
            }
            other => panic!("{json}: {other:?}"),
        }
    }
    for json in [
        "{\"version\":2,\"collection\":\"nodes\",\"revision\":7,\"after\":[]}",
        "[1,\"edges\",7,[]]",
    ] {
        match reads(json) {
            Err(CoreError::Conflict(words)) => {
                assert_eq!(words, "read cursor does not match this traversal contract", "{json}")
            }
            other => panic!("{json}: {other:?}"),
        }
    }
}
