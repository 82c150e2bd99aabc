//! Stores that are damaged, of another version, or inconsistent.
use genesis_core::index::schema::{self as index_schema, IndexFacts, IndexMigration, ProjectionCounts};
use genesis_core::record_store::keys::{validate_key, KeyUse};
use genesis_core::record_store::model::{Present, RecordStore};
use genesis_core::record_store::schema::{
    check_migrated, degraded_reason, plan_migration, reconcile_revision, validate, Migration,
    RecordFacts, RecordRows, RevisionFacts,
};
use genesis_core::recovery::artifacts::RECORD_SCHEMA_VERSION;
use genesis_core::security::{
    unix_fingerprint, BoundaryEvidence, BoundaryManifest, ManifestRead, StorageBoundary,
};
use genesis_core::{CoreError, Mutation, NodeId, PropertyValue};

fn fixture() -> (RecordRows, NodeId) {
    let mut store = RecordStore::new();
    let source = store.create_node().expect("source");
    let target = store.create_node().expect("target");
    store
        .apply_batch(&[Mutation::SetProperty {
            node_id: source.id,
            key: "fact".to_owned(),
            value: PropertyValue::Integer(7),
        }])
        .expect("seed Property");
    store
        .apply_batch(&[Mutation::AddRelationship {
            source: source.id,
            key: "edge".to_owned(),
            target: target.id,
        }])
        .expect("seed Relationship");
    (store.to_rows(), source.id)
}

fn refusal(rows: &RecordRows) -> String {
    match RecordStore::load(rows) {
        Ok(_) => panic!("the rows are no store"),
        Err(error) => error.to_string(),
    }
}

fn sound_facts() -> RecordFacts {
    RecordFacts {
        quick_check_ok: true,
        broken_references: 0,
        user_version: 5,
        meta_rows: 1,
        meta_version: 5,
        minimum_reader: 1,
        current_revision: 4,
        unissued_nodes: 0,
    }
}

fn said(result: Result<(), CoreError>) -> String {
    match result {
        Ok(_) => panic!("accepted"),
        Err(error) => error.to_string(),
    }
}

#[test]
fn missing_noncritical_creation_provenance_is_diagnosed_without_hiding_facts() {
    let (rows, source) = fixture();
    assert!(degraded_reason(false).as_deref().is_some_and(|reason| reason.contains("created_at")));
    assert_eq!(degraded_reason(true), None);
    let reopened = RecordStore::load(&rows).expect("interpret surviving canonical facts");
    assert_eq!(
        reopened.get_property(source, "fact").expect("surviving Property"),
        Some(PropertyValue::Integer(7))
    );
}

#[test]
fn missing_issued_id_for_existing_node_is_rejected() {
    let (rows, id) = fixture();
    let mut without_relationships = rows;
    without_relationships.relationships.clear();
    without_relationships.issued.retain(|entry| entry.0 != id);
    assert_eq!(
        refusal(&without_relationships),
        "Record Store failed validation: one or more Node Records lack an Issued-ID Ledger entry"
    );
}

#[test]
fn property_rowid_without_reconcilable_identity_is_reported_and_preserved() {
    let error = said(validate(&RecordFacts { broken_references: 1, ..sound_facts() }));
    assert!(error.contains("canonical inconsistency"));
}

#[test]
fn relationship_endpoint_without_issued_identity_is_reported_not_deleted() {
    let (mut rows, _) = fixture();
    let unissued = NodeId::new();
    rows.relationships[0].0.target = unissued;
    assert!(refusal(&rows).contains("canonical inconsistency"));
    assert_eq!(rows.relationships.len(), 1);
}

#[test]
fn revision_behind_committed_history_is_derived_without_rewriting_history() {
    let (mut rows, source) = fixture();
    let revision = rows.revision;
    let changes = rows.journal.len();
    rows.revision = 0;
    let recovered = RecordStore::load(&rows).expect("derive revision from surviving history");
    assert_eq!(recovered.current_revision(), revision);
    assert_eq!(
        recovered.get_property(source, "fact").expect("canonical fact"),
        Some(PropertyValue::Integer(7))
    );
    assert_eq!(recovered.to_rows().journal.len(), changes);
}

#[test]
fn unprovable_revision_with_missing_history_is_reported_not_guessed() {
    let (mut rows, _) = fixture();
    rows.journal.clear();
    rows.revision = 0;
    assert!(refusal(&rows).contains("canonical inconsistency"));
}

#[test]
fn a_revision_is_kept_where_history_does_not_speak_of_it() {
    let (mut rows, _) = fixture();
    rows.journal.clear();
    assert_eq!(RecordStore::load(&rows).expect("pruned history").current_revision(), 4);
    rows.revision = 9;
    assert_eq!(RecordStore::load(&rows).expect("later revision").current_revision(), 9);
    let facts = RevisionFacts {
        current: 2,
        latest_fact: 6,
        first_change: Some(4),
        last_change: Some(6),
        changed_revisions: 3,
    };
    assert_eq!(reconcile_revision(&facts).expect("unbroken"), Some(6));
    assert!(reconcile_revision(&RevisionFacts { changed_revisions: 2, ..facts }).is_err());
    assert!(reconcile_revision(&RevisionFacts { last_change: Some(5), ..facts }).is_err());
    assert!(reconcile_revision(&RevisionFacts { current: 8, ..facts }).is_err());
    assert_eq!(reconcile_revision(&RevisionFacts { current: 6, ..facts }).expect("same"), None);
}

#[test]
fn unsupported_schema_version_fails_without_rewriting_it() {
    match plan_migration(RECORD_SCHEMA_VERSION + 1, 0, 0) {
        Err(CoreError::UnsupportedSchema { store, found, supported }) => {
            assert_eq!((store, found, supported), ("Record Store", 6, 5));
        }
        _ => panic!("a future schema is not supported"),
    }
    assert_eq!(
        said(validate(&RecordFacts { user_version: 6, ..sound_facts() })),
        "Record Store schema version 6 is unsupported; this reader supports version 5"
    );
}

#[test]
fn malformed_metadata_fails_safely() {
    assert!(validate(&sound_facts()).is_ok());
    for facts in [
        RecordFacts { meta_version: RECORD_SCHEMA_VERSION + 1, ..sound_facts() },
        RecordFacts { meta_rows: 0, ..sound_facts() },
        RecordFacts { meta_version: 4, ..sound_facts() },
        RecordFacts { minimum_reader: 6, ..sound_facts() },
        RecordFacts { current_revision: -1, ..sound_facts() },
    ] {
        assert_eq!(
            said(validate(&facts)),
            "Record Store failed validation: store_meta is missing or inconsistent with the supported schema"
        );
    }
    assert_eq!(
        said(validate(&RecordFacts { quick_check_ok: false, ..sound_facts() })),
        "Record Store failed validation: SQLite quick_check did not return ok"
    );
    assert!(said(validate(&RecordFacts { unissued_nodes: 1, ..sound_facts() }))
        .contains("Issued-ID Ledger"));
}

#[test]
fn unversioned_nonempty_database_is_not_claimed_as_genesis() {
    assert!(matches!(plan_migration(0, 0, 1), Err(CoreError::CorruptStore { .. })));
    assert_eq!(plan_migration(0, 0, 0).expect("empty"), Migration::Create);
    assert_eq!(plan_migration(5, 7, 9).expect("current"), Migration::Nothing);
}

#[test]
fn inconsistent_v3_metadata_fails_without_partial_migration() {
    let migration = plan_migration(3, 0, 8).expect("legacy");
    assert_eq!(migration, Migration::AdoptLegacy { source_version: 3 });
    assert!(matches!(check_migrated(migration, 0), Err(CoreError::CorruptStore { .. })));
    assert!(check_migrated(migration, 1).is_ok());
    assert_eq!(plan_migration(4, 0, 8).expect("version 4"), Migration::FromVersion4);
    assert!(check_migrated(Migration::FromVersion4, 2).is_err());
    assert!(check_migrated(Migration::Create, 0).is_ok());
    assert!(plan_migration(3, 1, 8).is_err());
}

#[test]
fn unsupported_index_schema_fails_safely() {
    assert!(matches!(
        index_schema::plan_migration(index_schema::INDEX_SCHEMA_VERSION + 1, 0),
        Err(CoreError::UnsupportedSchema { store: "Index Store", found: 5, supported: 4 })
    ));
    let facts = IndexFacts {
        quick_check_ok: true,
        user_version: 4,
        meta_rows: 1,
        meta_version: 4,
        minimum_reader: 1,
        applied_revision: 0,
    };
    assert!(index_schema::validate(&facts).is_ok());
    assert!(index_schema::validate(&IndexFacts { user_version: 99, ..facts }).is_err());
    assert!(index_schema::validate(&IndexFacts { applied_revision: -1, ..facts }).is_err());
    assert!(index_schema::validate(&IndexFacts { quick_check_ok: false, ..facts }).is_err());
}

#[test]
fn an_older_index_gets_the_schemas_after_its_own() {
    assert_eq!(
        index_schema::plan_migration(1, 1).expect("version 1"),
        IndexMigration::AddAfter { version: 1 }
    );
    assert_eq!(
        index_schema::plan_migration(3, 1).expect("version 3"),
        IndexMigration::AddAfter { version: 3 }
    );
    assert_eq!(index_schema::plan_migration(0, 0).expect("empty"), IndexMigration::Create);
    assert!(index_schema::plan_migration(0, 1).is_err());
}

#[test]
fn a_candidate_must_hold_what_it_was_built_of() {
    let (rows, _) = fixture();
    let store = RecordStore::load(&rows).expect("records");
    let snapshot = store.projection_snapshot();
    let found = ProjectionCounts {
        nodes: 2,
        properties: 1,
        relationships: 1,
        property_definitions: 0,
        relationship_definitions: 0,
        revision: 4,
    };
    assert_eq!(snapshot.expected_counts(), found);
    assert!(index_schema::validate_projection(0, &found, &snapshot).is_ok());
    assert!(index_schema::validate_projection(1, &found, &snapshot).is_err());
    let fewer = ProjectionCounts { properties: 0, ..found };
    assert!(index_schema::validate_projection(0, &fewer, &snapshot).is_err());
}

#[test]
fn files_beside_a_database_carry_their_role() {
    assert_eq!(
        index_schema::sibling_with_role("index", Some("sqlite"), "previous"),
        "index.previous.sqlite"
    );
    assert_eq!(index_schema::sibling_with_role("index", None, "invalid"), "index.invalid");
}

#[test]
fn rows_that_were_written_are_read_back() {
    let (rows, _) = fixture();
    let again = RecordStore::load(&rows).expect("records").to_rows();
    assert_eq!(again.revision, rows.revision);
    assert_eq!(
        again.issued.iter().map(|entry| entry.0).collect::<Vec<_>>(),
        rows.issued.iter().map(|entry| entry.0).collect::<Vec<_>>()
    );
    assert_eq!(again.nodes.len(), rows.nodes.len());
    assert_eq!(again.relationships.len(), 1);
    assert_eq!(again.relationships[0].0, rows.relationships[0].0);
    assert_eq!(again.journal.len(), 4);
    assert_eq!(rows.issued[0].1, Present);
}

fn manifest() -> BoundaryManifest {
    BoundaryManifest {
        format_version: 1,
        mode: "protected".to_owned(),
        root_fingerprint: "unix:/library:1:2".to_owned(),
        sentinel: "sentinel".to_owned(),
    }
}

fn boundary_refusal(root_is_dir: bool, read: ManifestRead) -> String {
    match StorageBoundary::load_required("/library", root_is_dir, read) {
        Ok(_) => panic!("accepted"),
        Err(error) => error.to_string(),
    }
}

#[test]
fn a_boundary_needs_a_whole_manifest() {
    let loaded =
        StorageBoundary::load_required("/library", true, ManifestRead::Read(manifest()));
    assert!(loaded.expect("a boundary").is_protected());
    assert!(boundary_refusal(false, ManifestRead::Read(manifest())).ends_with("root is missing"));
    assert!(boundary_refusal(true, ManifestRead::Unavailable("gone".to_owned()))
        .ends_with("manifest is unavailable: gone"));
    assert!(boundary_refusal(true, ManifestRead::Invalid("bad".to_owned()))
        .ends_with("manifest is invalid: bad"));
    assert!(boundary_refusal(
        true,
        ManifestRead::Read(BoundaryManifest { format_version: 2, ..manifest() })
    )
    .ends_with("version or mode is invalid"));
    assert!(boundary_refusal(
        true,
        ManifestRead::Read(BoundaryManifest { mode: "open".to_owned(), ..manifest() })
    )
    .ends_with("version or mode is invalid"));
    assert!(boundary_refusal(
        true,
        ManifestRead::Read(BoundaryManifest { sentinel: String::new(), ..manifest() })
    )
    .ends_with("evidence is incomplete"));
    let unprotected = StorageBoundary::load_if_present(
        "/library",
        false,
        true,
        ManifestRead::Unavailable("gone".to_owned()),
    );
    assert_eq!(unprotected.expect("no manifest"), StorageBoundary::Unprotected);
}

#[test]
fn a_boundary_is_shown_by_its_root_its_fingerprint_and_its_sentinel() {
    assert_eq!(unix_fingerprint("/library", 1, 2), "unix:/library:1:2");
    let made = StorageBoundary::configure_protected(true, unix_fingerprint("/library", 1, 2))
        .expect("a new manifest");
    assert_eq!(made.mode, "protected");
    assert!(NodeId::parse(&made.sentinel).is_ok());
    assert!(StorageBoundary::configure_protected(false, String::new()).is_err());
    assert!(StorageBoundary::Unprotected.check_metadata_root(false).is_ok());
    let sentinel = made.sentinel.clone();
    let boundary = StorageBoundary::load_required("/library", true, ManifestRead::Read(made))
        .expect("a boundary");
    let evidence = |root: bool, fingerprint: &str, sentinel: &str| BoundaryEvidence {
        root_is_dir: root,
        fingerprint: Ok(fingerprint.to_owned()),
        sentinel: Ok(sentinel.to_owned()),
    };
    assert!(boundary.check_metadata_root(true).is_ok());
    assert!(said(boundary.check_metadata_root(false)).ends_with("metadata root is unavailable"));
    assert!(boundary.validate(&evidence(true, "unix:/library:1:2", &sentinel)).is_ok());
    assert!(said(boundary.validate(&evidence(false, "unix:/library:1:2", &sentinel)))
        .ends_with("disappeared or is unmounted"));
    assert!(said(boundary.validate(&evidence(true, "unix:/library:1:9", &sentinel)))
        .ends_with("configured storage identity"));
    assert!(said(boundary.validate(&evidence(true, "unix:/library:1:2", "other")))
        .ends_with("sentinel does not match"));
    assert!(said(boundary.validate(&BoundaryEvidence {
        root_is_dir: true,
        fingerprint: Ok("unix:/library:1:2".to_owned()),
        sentinel: Err("not found".to_owned()),
    }))
    .ends_with("sentinel is unavailable: not found"));
    assert!(matches!(
        boundary.validate(&BoundaryEvidence {
            root_is_dir: true,
            fingerprint: Err(CoreError::Io { permission_denied: true, message: "no".to_owned() }),
            sentinel: Ok(sentinel),
        }),
        Err(CoreError::Io { permission_denied: true, .. })
    ));
}

#[test]
fn keys_have_no_white_space_at_either_end() {
    for space in [
        ' ', '\u{a0}', '\u{1680}', '\u{2000}', '\u{200a}', '\u{2028}', '\u{2029}', '\u{202f}',
        '\u{205f}', '\u{3000}',
    ] {
        assert!(validate_key(&format!("a{space}b"), KeyUse::Property).is_ok());
        assert!(matches!(
            validate_key(&format!("{space}a"), KeyUse::Property),
            Err(CoreError::InvalidProperty(_))
        ));
        assert!(matches!(
            validate_key(&format!("a{space}"), KeyUse::Relationship),
            Err(CoreError::InvalidRelationship(_))
        ));
    }
    for other in ['\u{200b}', '\u{feff}', '\u{180e}', '\u{2060}'] {
        assert!(validate_key(&format!("{other}a"), KeyUse::Definition).is_ok());
    }
}
