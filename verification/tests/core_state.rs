//! Operations of a core: commits, definitions, lifecycle, identity, and the Index that follows.
use genesis_core::index::model::{FailurePoint, IndexStore};
use genesis_core::index::schema::{IndexFile, ProjectionCounts};
use genesis_core::record_store::model::RecordStore;
use genesis_core::security::{BoundaryEvidence, StorageBoundary};
use genesis_core::{
    CoreError, CoreErrorCategory, CoreState, DefinitionState, IdentityResolution,
    IndexRebuildReason, IndexSyncState, JsonText, LifecycleState, Mutation, NewPropertyDefinition,
    NewRelationshipDefinition, NodeId, PropertyDefinitionUpdate, PropertyFilter, PropertyQuery,
    PropertySort, PropertyValue, PropertyValueKind, ReadPage, RealNumber, ReconcileOutcome,
    Relationship, RelationshipDefinitionUpdate, RelationshipDirection, SearchDocumentInput,
};

fn evidence() -> BoundaryEvidence {
    BoundaryEvidence {
        root_is_dir: true,
        fingerprint: Ok("unix:/library:1:2".to_owned()),
        sentinel: Ok("sentinel".to_owned()),
    }
}

fn with_records(records: RecordStore) -> CoreState {
    let opened = CoreState::open(
        records,
        &IndexFile::Missing,
        StorageBoundary::Unprotected,
        evidence(),
        Err(CoreError::Database("no recovery material".to_owned())),
    );
    match opened {
        Ok(core) => core,
        Err(error) => panic!("{}", error.to_string()),
    }
}

fn open() -> CoreState {
    with_records(RecordStore::new())
}

fn reopen(core: CoreState) -> CoreState {
    match RecordStore::load(&core.record_store().to_rows()) {
        Ok(records) => with_records(records),
        Err(error) => panic!("{}", error.to_string()),
    }
}

fn text(value: &str) -> PropertyValue {
    PropertyValue::Text(value.to_owned())
}

fn float(value: f64) -> PropertyValue {
    PropertyValue::Real(RealNumber { bits: value.to_bits(), text: format!("{value:?}") })
}

fn counts(core: &CoreState) -> (u64, u128, u64) {
    let counts: ProjectionCounts = core.index_store().projection_counts();
    (counts.nodes, counts.properties, counts.relationships)
}

fn property_definition(key: &str, label: &str, origin: &str) -> NewPropertyDefinition {
    NewPropertyDefinition {
        key: key.to_owned(),
        label: label.to_owned(),
        description: None,
        expected_value_kind: None,
        origin: origin.to_owned(),
    }
}

fn relationship_definition(key: &str, label: &str, origin: &str) -> NewRelationshipDefinition {
    NewRelationshipDefinition {
        key: key.to_owned(),
        forward_label: label.to_owned(),
        inverse_label: None,
        description: None,
        origin: origin.to_owned(),
    }
}

#[test]
fn indexed_property_query_filters_and_sorts_generic_values() {
    let mut core = open();
    let nodes = core.create_nodes(3).expect("Nodes");
    core.set_property(nodes[0].id, "score".to_owned(), PropertyValue::Integer(3)).expect("score");
    core.set_property(nodes[1].id, "score".to_owned(), PropertyValue::Integer(8)).expect("score");
    core.set_property(nodes[2].id, "score".to_owned(), PropertyValue::Integer(5)).expect("score");

    let matches = core
        .query_properties(&PropertyQuery {
            key: "score".to_owned(),
            filter: Some(PropertyFilter::AtLeast(PropertyValue::Integer(5))),
            sort: PropertySort::Descending,
            limit: 10,
        })
        .expect("query indexed Properties");
    assert_eq!(
        matches.iter().map(|item| item.value.clone()).collect::<Vec<_>>(),
        vec![PropertyValue::Integer(8), PropertyValue::Integer(5)]
    );
}

#[test]
fn navigator_projection_lists_uuid_nodes_and_survives_index_rebuild() {
    let mut core = open();
    let first = core.create_node().expect("create first Node");
    let second = core.create_node().expect("create second Node");

    let before = core.list_nodes();
    assert_eq!(before.len(), 2);
    assert!(before.iter().any(|node| node.id == first.id));
    assert!(before.iter().any(|node| node.id == second.id));

    core.rebuild_index().expect("rebuild Index");
    let after = core.list_nodes();
    assert_eq!(after, before);
}

#[test]
fn phase_two_headless_graph_round_trips_across_restart() {
    let mut core = open();
    let source = core.create_node().expect("create source");
    let target = core.create_node().expect("create target");

    core.register_property_definition(&NewPropertyDefinition {
        key: "genesis.title".to_owned(),
        label: "Title".to_owned(),
        description: None,
        expected_value_kind: Some(PropertyValueKind::Text),
        origin: "genesis".to_owned(),
    })
    .expect("register title");
    core.register_relationship_definition(&NewRelationshipDefinition {
        key: "genesis.links_to".to_owned(),
        forward_label: "Links to".to_owned(),
        inverse_label: Some("Linked from".to_owned()),
        description: None,
        origin: "genesis".to_owned(),
    })
    .expect("register relationship");

    let commit = core
        .apply_batch(&[
            Mutation::SetProperty {
                node_id: source.id,
                key: "genesis.title".to_owned(),
                value: text("Source"),
            },
            Mutation::SetProperty {
                node_id: source.id,
                key: "legacy.score".to_owned(),
                value: PropertyValue::Integer(7),
            },
            Mutation::AddRelationship {
                source: source.id,
                key: "genesis.links_to".to_owned(),
                target: target.id,
            },
        ])
        .expect("commit graph");
    assert_eq!(commit.change_count, 3);

    let reopened = reopen(core);
    assert_eq!(reopened.get_node(source.id).expect("source"), source);
    assert_eq!(reopened.get_node(target.id).expect("target"), target);
    assert_eq!(
        reopened.list_properties(source.id).expect("properties"),
        vec![
            ("genesis.title".to_owned(), text("Source")),
            ("legacy.score".to_owned(), PropertyValue::Integer(7)),
        ]
    );
    assert_eq!(
        reopened
            .query_relationships(source.id, RelationshipDirection::Outgoing, None)
            .expect("relationships"),
        vec![Relationship {
            source: source.id,
            key: "genesis.links_to".to_owned(),
            target: target.id,
        }]
    );
}

#[test]
fn every_property_kind_round_trips_and_identity_stays_fixed() {
    let mut core = open();
    let node = core.create_node().expect("create node");
    let peer = core.create_node().expect("create peer");
    let mut values: Vec<(String, PropertyValue)> = vec![
        ("value.null".to_owned(), PropertyValue::Null),
        ("value.boolean".to_owned(), PropertyValue::Boolean(true)),
        ("value.integer".to_owned(), PropertyValue::Integer(-9)),
        ("value.real".to_owned(), float(2.5)),
        ("value.text".to_owned(), text("∆")),
        ("value.date".to_owned(), PropertyValue::Date("2026-09-04".to_owned())),
        (
            "value.datetime".to_owned(),
            PropertyValue::DateTime("2026-09-04T12:00:00-07:00".to_owned()),
        ),
        (
            "value.list".to_owned(),
            PropertyValue::List(vec![PropertyValue::Integer(1), PropertyValue::Null]),
        ),
        (
            "value.structured".to_owned(),
            PropertyValue::Structured(JsonText::parse("{\"portable\": true}").expect("JSON")),
        ),
    ];
    values.sort_by(|a, b| a.0.cmp(&b.0));
    let mut mutations = values
        .iter()
        .map(|(key, value)| Mutation::SetProperty {
            node_id: node.id,
            key: key.clone(),
            value: value.clone(),
        })
        .collect::<Vec<_>>();
    mutations.push(Mutation::AddRelationship {
        source: node.id,
        key: "related".to_owned(),
        target: peer.id,
    });
    core.apply_batch(&mutations).expect("apply values");

    assert_eq!(core.list_properties(node.id).expect("list values"), values);
    assert_eq!(core.get_node(node.id).expect("same node").id, node.id);
    assert!(matches!(
        core.set_property(node.id, "bad.real".to_owned(), float(f64::NAN)),
        Err(CoreError::InvalidPropertyValue(_))
    ));
}

#[test]
fn relationships_are_tuple_unique_but_allow_multiple_types() {
    let mut core = open();
    let source = core.create_node().expect("source");
    let target = core.create_node().expect("target");
    core.add_relationship(source.id, "links_to".to_owned(), target.id).expect("first type");
    core.add_relationship(source.id, "depends_on".to_owned(), target.id).expect("second type");
    let duplicate = core.add_relationship(source.id, "links_to".to_owned(), target.id);
    assert!(matches!(duplicate, Err(CoreError::AlreadyExists { .. })));
    assert_eq!(
        core.query_relationships(source.id, RelationshipDirection::Outgoing, None)
            .expect("query")
            .len(),
        2
    );
    core.set_property(source.id, "label".to_owned(), text("source")).expect("Property refresh");
    assert_eq!(
        counts(&core),
        (2, 1, 2),
        "refreshing a Node must preserve its unchanged Relationships"
    );
}

#[test]
fn definition_metadata_changes_never_rewrite_or_destroy_facts() {
    let mut core = open();
    let node = core.create_node().expect("node");
    core.register_property_definition(&NewPropertyDefinition {
        key: "priority".to_owned(),
        label: "Priority".to_owned(),
        description: None,
        expected_value_kind: Some(PropertyValueKind::Integer),
        origin: "user".to_owned(),
    })
    .expect("register");
    core.set_property(node.id, "priority".to_owned(), PropertyValue::Integer(2))
        .expect("set fact");
    let updated = core
        .update_property_definition(
            "priority",
            &PropertyDefinitionUpdate {
                label: "Importance".to_owned(),
                description: Some("Presentation changed".to_owned()),
                expected_value_kind: Some(PropertyValueKind::Integer),
            },
        )
        .expect("rename label");
    assert_eq!(updated.label, "Importance");
    assert_eq!(updated.version, 2);
    assert_eq!(
        core.get_property(node.id, "priority").expect("fact"),
        Some(PropertyValue::Integer(2))
    );
    assert_eq!(core.property_definition_usage("priority").expect("usage").fact_count, 1);
    assert!(matches!(
        core.remove_property_definition("priority"),
        Err(CoreError::Conflict(_))
    ));
    core.deprecate_property_definition("priority", None).expect("deprecate");
    assert_eq!(
        core.get_property(node.id, "priority").expect("legacy fact"),
        Some(PropertyValue::Integer(2))
    );
    assert!(matches!(
        core.set_property(node.id, "priority".to_owned(), PropertyValue::Integer(3)),
        Err(CoreError::Conflict(_))
    ));

    core.set_property(node.id, "undefined.legacy".to_owned(), text("kept"))
        .expect("undefined vocabulary remains preservable");
    assert_eq!(
        core.get_property(node.id, "undefined.legacy").expect("undefined fact"),
        Some(text("kept"))
    );
}

#[test]
fn relationship_definitions_support_update_replacement_usage_and_safe_removal() {
    let mut core = open();
    let source = core.create_node().expect("source");
    let target = core.create_node().expect("target");
    for (key, label) in [("links_to", "Links to"), ("references", "References")] {
        core.register_relationship_definition(&relationship_definition(key, label, "genesis"))
            .expect("register definition");
    }
    core.add_relationship(source.id, "links_to".to_owned(), target.id).expect("add fact");
    let updated = core
        .update_relationship_definition(
            "links_to",
            &RelationshipDefinitionUpdate {
                forward_label: "Points to".to_owned(),
                inverse_label: Some("Pointed from".to_owned()),
                description: Some("Presentation metadata".to_owned()),
            },
        )
        .expect("update metadata");
    assert_eq!(updated.forward_label, "Points to");
    assert_eq!(updated.version, 2);
    let deprecated = core
        .deprecate_relationship_definition("links_to", Some("references"))
        .expect("deprecate with replacement");
    assert_eq!(deprecated.state, DefinitionState::Deprecated);
    assert_eq!(deprecated.replacement_key.as_deref(), Some("references"));
    assert_eq!(core.relationship_definition_usage("links_to").expect("usage").fact_count, 1);
    assert_eq!(
        core.query_relationships(source.id, RelationshipDirection::Outgoing, Some("links_to"))
            .expect("legacy edge")
            .len(),
        1
    );
    assert!(matches!(
        core.add_relationship(target.id, "links_to".to_owned(), source.id),
        Err(CoreError::Conflict(_))
    ));
    assert!(matches!(
        core.remove_relationship_definition("links_to"),
        Err(CoreError::Conflict(_))
    ));
    assert_eq!(core.list_relationship_definitions().len(), 2);
    let counted = core.index_store().projection_counts();
    assert_eq!((counted.property_definitions, counted.relationship_definitions), (0, 2));

    core.register_relationship_definition(&relationship_definition("unused", "Unused", "user"))
        .expect("unused definition");
    core.remove_relationship_definition("unused").expect("remove unused");
    assert!(matches!(
        core.get_relationship_definition("unused"),
        Err(CoreError::DefinitionNotFound(_))
    ));
}

#[test]
fn failed_atomic_batch_rolls_back_every_change_and_revision() {
    let mut core = open();
    let node = core.create_node().expect("node");
    let before = core
        .set_property(node.id, "stable".to_owned(), PropertyValue::Integer(1))
        .expect("baseline");
    let failure = core.apply_batch(&[
        Mutation::SetProperty {
            node_id: node.id,
            key: "temporary".to_owned(),
            value: text("rollback"),
        },
        Mutation::RemoveProperty {
            node_id: node.id,
            key: "missing".to_owned(),
        },
    ]);
    assert!(matches!(failure, Err(CoreError::NotFound { .. })));
    assert_eq!(core.get_property(node.id, "temporary").expect("query"), None);
    let after = core
        .set_property(node.id, "stable".to_owned(), PropertyValue::Integer(2))
        .expect("next commit");
    assert_eq!(after.revision, before.revision + 1);
}

#[test]
fn lifecycle_requires_tombstone_before_purge_and_preserves_independent_relationships() {
    let mut core = open();
    let node = core.create_node().expect("node");
    let peer = core.create_node().expect("peer");
    core.set_property(node.id, "fact".to_owned(), PropertyValue::Boolean(true))
        .expect("property");
    core.add_relationship(node.id, "edge".to_owned(), peer.id).expect("edge");
    assert!(matches!(core.purge_node(node.id), Err(CoreError::Conflict(_))));
    core.tombstone_node(node.id).expect("tombstone");
    assert_eq!(
        core.get_node(node.id).expect("tombstone retained").lifecycle_state,
        LifecycleState::Tombstoned
    );
    assert!(matches!(
        core.set_property(node.id, "fact".to_owned(), PropertyValue::Boolean(false)),
        Err(CoreError::Conflict(_))
    ));
    core.restore_node(node.id).expect("restore");
    assert_eq!(
        core.get_property(node.id, "fact").expect("restored fact"),
        Some(PropertyValue::Boolean(true))
    );
    core.tombstone_node(node.id).expect("tombstone again");
    core.purge_node(node.id).expect("purge");
    assert!(matches!(core.get_node(node.id), Err(CoreError::NotFound { .. })));
    let edges = core
        .query_relationships(peer.id, RelationshipDirection::Either, None)
        .expect("independent canonical Relationship");
    assert_eq!(edges.len(), 1);
    assert_eq!(edges[0].source, node.id);
    assert_eq!(
        core.query_relationships(node.id, RelationshipDirection::Outgoing, None)
            .expect("retired ID remains a queryable Relationship endpoint"),
        edges
    );
}

#[test]
fn issued_id_ledger_tracks_node_lifecycle_without_becoming_node_state() {
    let mut core = open();
    let node = core.create_node().expect("Node");
    let peer = core.create_node().expect("peer");
    assert!(core.record_store().is_id_issued(node.id));
    assert!(matches!(
        core.create_node_with_id(node.id),
        Err(CoreError::AlreadyExists { .. })
    ));

    core.tombstone_node(node.id).expect("tombstone");
    assert_eq!(
        core.get_node(node.id).expect("tombstoned Node").lifecycle_state,
        LifecycleState::Tombstoned
    );
    assert!(core.record_store().is_id_issued(node.id));
    assert!(matches!(
        core.create_node_with_id(node.id),
        Err(CoreError::AlreadyExists { .. })
    ));

    core.restore_node(node.id).expect("restore");
    assert_eq!(
        core.get_node(node.id).expect("restored Node").lifecycle_state,
        LifecycleState::Active
    );
    core.set_property(node.id, "temporary".to_owned(), PropertyValue::Boolean(true))
        .expect("Property");
    core.add_relationship(node.id, "temporary".to_owned(), peer.id).expect("Relationship");
    core.tombstone_node(node.id).expect("tombstone before purge");
    core.purge_node(node.id).expect("purge");

    assert!(matches!(core.get_node(node.id), Err(CoreError::NotFound { .. })));
    assert!(matches!(
        core.get_property(node.id, "temporary"),
        Err(CoreError::NotFound { .. })
    ));
    let relationships = core
        .query_relationships(peer.id, RelationshipDirection::Either, None)
        .expect("surviving Relationships");
    assert_eq!(relationships.len(), 1);
    assert_eq!(relationships[0].source, node.id);
    assert!(core.record_store().is_id_issued(node.id));
    let replacement = core.create_node().expect("different new Node");
    assert_ne!(replacement.id, node.id);
}

#[test]
fn purged_id_reuse_regression_is_rejected() {
    let mut core = open();
    let node = core.create_node().expect("Node ABC");
    core.tombstone_node(node.id).expect("tombstone ABC");
    core.purge_node(node.id).expect("purge ABC");

    assert!(matches!(
        core.create_node_with_id(node.id),
        Err(CoreError::AlreadyExists { .. })
    ));
}

#[test]
fn retired_identity_survives_reopen_and_index_rebuild_without_projection() {
    let mut core = open();
    let node = core.create_node().expect("Node");
    core.replace_content_projection(
        &[SearchDocumentInput {
            document_key: "issued-id-ledger-test".to_owned(),
            node_id: node.id,
            source_kind: "test".to_owned(),
            title: "Retired identity".to_owned(),
            body: "retiredidentitytoken".to_owned(),
            metadata: String::new(),
            source_locator: None,
            source_fingerprint: "test-v1".to_owned(),
        }],
        &[],
    )
    .expect("derived search projection");
    core.tombstone_node(node.id).expect("tombstone");
    core.purge_node(node.id).expect("purge");

    let mut reopened = reopen(core);
    assert!(reopened.list_nodes().iter().all(|candidate| candidate.id != node.id));
    assert!(matches!(
        reopened.create_node_with_id(node.id),
        Err(CoreError::AlreadyExists { .. })
    ));
    reopened.rebuild_index().expect("explicit Index rebuild");
    assert!(reopened.list_nodes().iter().all(|candidate| candidate.id != node.id));
    assert!(matches!(
        reopened.create_node_with_id(node.id),
        Err(CoreError::AlreadyExists { .. })
    ));
}

#[test]
fn record_commit_survives_index_failure_and_incrementally_catches_up() {
    let mut core = open();
    core.inject_index_failure(FailurePoint::BeforeApply);

    let node = core.create_node().expect("canonical create succeeds");
    assert_eq!(core.get_node(node.id).expect("canonical Node"), node);
    let stale = core.index_sync();
    assert_eq!(stale.record_revision, 1);
    assert_eq!(stale.applied_revision, 0);
    assert_eq!(stale.state, IndexSyncState::Stale);
    assert_eq!(counts(&core), (0, 0, 0));

    assert!(matches!(
        core.reconcile_index().expect("catch up"),
        ReconcileOutcome::Incremental {
            from_revision: 0,
            to_revision: 1,
            ..
        }
    ));
    assert_eq!(core.index_sync().state, IndexSyncState::Current);
    assert_eq!(counts(&core), (1, 0, 0));
}

#[test]
fn index_transaction_failure_never_advances_checkpoint_or_partial_projection() {
    let mut core = open();
    let node = core.create_node().expect("create Node");
    let before = core.index_sync();
    core.inject_index_failure(FailurePoint::BeforeCheckpoint);

    let commit = core
        .set_property(node.id, "phase".to_owned(), PropertyValue::Integer(3))
        .expect("canonical Property commit");
    assert_eq!(commit.revision, before.record_revision + 1);
    let stale = core.index_sync();
    assert_eq!(stale.applied_revision, before.applied_revision);
    assert_eq!(stale.state, IndexSyncState::Stale);
    assert_eq!(
        counts(&core),
        (1, 0, 0),
        "the uncommitted Property projection must roll back"
    );
    core.reconcile_index().expect("retry reconcile");
    assert_eq!(counts(&core), (1, 1, 0));
}

#[test]
fn stale_checkpoint_with_journal_uses_incremental_projection() {
    let mut records = RecordStore::new();
    let mut index = IndexStore::new();
    let node = records.create_node().expect("direct canonical test mutation");
    assert_ne!(records.current_revision(), index.applied_revision());
    assert!(matches!(
        index.reconcile(&records).expect("incremental reconcile"),
        ReconcileOutcome::Incremental {
            from_revision: 0,
            to_revision: 1,
            ..
        }
    ));
    assert_eq!(records.get_node(node.id).expect("canonical Node"), node);
}

#[test]
fn checkpoint_older_than_retained_journal_forces_full_rebuild() {
    let mut records = RecordStore::new();
    let mut index = IndexStore::new();
    records.create_node().expect("revision one");
    records.create_node().expect("revision two");
    assert_eq!(records.prune_changes_through(1), 1, "prune first revision");
    assert!(matches!(
        index.reconcile(&records).expect("rebuild"),
        ReconcileOutcome::Rebuilt {
            revision: 2,
            reason: IndexRebuildReason::JournalUnavailable,
        }
    ));
    let counted = index.projection_counts();
    assert_eq!((counted.nodes, counted.properties, counted.relationships), (2, 0, 0));
}

#[test]
fn missing_or_corrupt_index_is_rebuilt_without_losing_canonical_meaning() {
    for corruption in ["missing", "corrupt"] {
        let mut core = open();
        let source = core.create_node().expect("source");
        let target = core.create_node().expect("target");
        core.set_property(source.id, "title".to_owned(), text("kept")).expect("Property");
        core.add_relationship(source.id, "links_to".to_owned(), target.id).expect("Relationship");
        let records = RecordStore::load(&core.record_store().to_rows()).expect("records");
        let (found, reason) = if corruption == "missing" {
            (IndexFile::Missing, IndexRebuildReason::Missing)
        } else {
            (IndexFile::Unusable, IndexRebuildReason::CorruptOrIncompatible)
        };
        match IndexStore::open_for_core(&found, &records) {
            Ok((_, outcome)) => {
                assert_eq!(outcome, ReconcileOutcome::Rebuilt { revision: 4, reason })
            }
            Err(error) => panic!("{}", error.to_string()),
        }
        let reopened = match CoreState::open(
            records,
            &found,
            StorageBoundary::Unprotected,
            evidence(),
            Err(CoreError::Database("no recovery material".to_owned())),
        ) {
            Ok(core) => core,
            Err(error) => panic!("{}", error.to_string()),
        };
        assert_eq!(
            reopened.get_property(source.id, "title").expect("Property"),
            Some(text("kept"))
        );
        assert_eq!(
            reopened
                .query_relationships(source.id, RelationshipDirection::Outgoing, None)
                .expect("Relationships")
                .len(),
            1
        );
        assert_eq!(reopened.index_sync().state, IndexSyncState::Current);
        assert_eq!(counts(&reopened), (2, 1, 1));
    }
}

#[test]
fn failed_rebuild_keeps_prior_valid_index_usable() {
    let mut core = open();
    core.create_node().expect("Node");
    let before = core.index_sync();
    core.inject_index_failure(FailurePoint::BeforePromotion);
    assert!(matches!(core.rebuild_index(), Err(CoreError::IndexUnavailable(_))));
    let after = core.index_sync();
    assert_eq!(after, before);
    assert_eq!(counts(&core), (1, 0, 0));
}

#[test]
fn failed_single_node_creation_does_not_consume_identity() {
    let mut store = RecordStore::new();
    let issued = store.create_node().expect("issued identity");
    let node_id = NodeId::new();
    let before = store.current_revision();
    assert!(store
        .apply_batch(&[
            Mutation::CreateNode { node_id },
            Mutation::CreateNode { node_id: issued.id },
        ])
        .is_err());
    assert!(!store.is_id_issued(node_id));
    assert_eq!(store.current_revision(), before);
    assert_eq!(store.create_node_with_id(node_id).expect("retry same identity").id, node_id);
}

#[test]
fn batch_creation_reserves_every_id_atomically() {
    let mut success = RecordStore::new();
    let nodes = success.create_nodes(4).expect("batch create");
    assert!(nodes.iter().all(|node| success.is_id_issued(node.id)));
    assert_eq!(success.to_rows().issued.len(), 4);

    let mut failure = RecordStore::new();
    let id = NodeId::new();
    assert!(failure.create_nodes_with_ids(&vec![id, id]).is_err());
    let rows = failure.to_rows();
    assert_eq!((rows.issued.len(), rows.nodes.len()), (0, 0));
    assert_eq!(failure.current_revision(), 0);
}

#[test]
fn identity_resolution_distinguishes_all_four_states_across_restart() {
    let mut core = open();
    let never_issued = NodeId::new();
    let node = core.create_node().expect("create Node");

    assert_eq!(core.resolve_identity(node.id), IdentityResolution::Active);
    assert_eq!(core.resolve_identity(never_issued), IdentityResolution::NeverIssued);

    core.tombstone_node(node.id).expect("tombstone Node");
    assert_eq!(core.resolve_identity(node.id), IdentityResolution::Tombstoned);
    core.purge_node(node.id).expect("purge Node");
    assert_eq!(core.resolve_identity(node.id), IdentityResolution::Retired);

    let reopened = reopen(core);
    assert_eq!(reopened.resolve_identity(node.id), IdentityResolution::Retired);
    assert_eq!(reopened.resolve_identity(never_issued), IdentityResolution::NeverIssued);
}

#[test]
fn node_creation_and_generic_initialization_commit_or_rollback_together() {
    let mut core = open();
    let target = core.create_node().expect("target Node");
    let created = NodeId::new();

    let commit = core
        .apply_batch(&[
            Mutation::CreateNode { node_id: created },
            Mutation::SetProperty {
                node_id: created,
                key: "core.title".to_owned(),
                value: text("atomic"),
            },
            Mutation::AddRelationship {
                source: created,
                key: "core.related".to_owned(),
                target: target.id,
            },
        ])
        .expect("atomic create and initialize");
    assert_eq!(commit.change_count, 3);
    assert_eq!(core.resolve_identity(created), IdentityResolution::Active);
    assert_eq!(
        core.get_property(created, "core.title").expect("Property"),
        Some(text("atomic"))
    );
    assert_eq!(
        core.query_relationships(created, RelationshipDirection::Outgoing, None)
            .expect("Relationship")
            .len(),
        1
    );

    let rolled_back = NodeId::new();
    assert!(core
        .apply_batch(&[
            Mutation::CreateNode { node_id: rolled_back },
            Mutation::SetProperty {
                node_id: rolled_back,
                key: " invalid".to_owned(),
                value: text("must not commit"),
            },
        ])
        .is_err());
    assert_eq!(
        core.resolve_identity(rolled_back),
        IdentityResolution::NeverIssued,
        "a failed transaction must not reserve the ID or leave a Node"
    );
}

#[test]
fn high_cardinality_reads_have_deterministic_bounded_windows() {
    let mut core = open();
    let nodes = core.create_nodes(6).expect("Nodes");
    for (ordinal, node) in nodes.iter().enumerate() {
        core.set_property(
            node.id,
            format!("key-{ordinal:02}"),
            PropertyValue::Integer(ordinal as i64),
        )
        .expect("Property");
    }
    for target in nodes.iter().skip(1) {
        core.add_relationship(nodes[0].id, "core.related".to_owned(), target.id)
            .expect("Relationship");
    }

    let all_nodes = core.list_nodes();
    let first_nodes = core.list_nodes_page(ReadPage::new(0, 2)).expect("first Node page");
    let second_nodes = core.list_nodes_page(ReadPage::new(2, 2)).expect("second Node page");
    assert_eq!(first_nodes, all_nodes[0..2]);
    assert_eq!(second_nodes, all_nodes[2..4]);

    let properties = core.list_properties(nodes[0].id).expect("all Properties");
    let property_keys = properties.iter().map(|pair| pair.0.clone()).collect::<Vec<_>>();
    let property_page = core
        .list_properties_page(nodes[0].id, ReadPage::new(0, 1))
        .expect("Property page");
    assert_eq!(property_page[0].0, property_keys[0]);

    let all_relationships = core
        .query_relationships(nodes[0].id, RelationshipDirection::Outgoing, None)
        .expect("all Relationships");
    let relationship_page = core
        .query_relationships_page(
            nodes[0].id,
            RelationshipDirection::Outgoing,
            None,
            ReadPage::new(1, 2),
        )
        .expect("Relationship page");
    assert_eq!(relationship_page, all_relationships[1..3]);

    let query = PropertyQuery {
        key: "key-01".to_owned(),
        filter: Some(PropertyFilter::Equals(PropertyValue::Integer(1))),
        sort: PropertySort::Ascending,
        limit: 100,
    };
    assert_eq!(
        core.query_properties_page(&query, ReadPage::new(0, 1))
            .expect("indexed Property page")
            .len(),
        1
    );

    let graph = core.graph();
    assert_eq!(
        core.graph_nodes_page(ReadPage::new(0, 2)).expect("graph Node page"),
        graph.nodes[0..2]
    );
    assert_eq!(
        core.graph_edges_page(ReadPage::new(1, 2)).expect("graph edge page"),
        graph.edges[1..3]
    );

    let all_backlinks = core.backlinks(nodes[1].id);
    assert_eq!(
        core.backlinks_page(nodes[1].id, ReadPage::new(0, 1)).expect("backlink page"),
        all_backlinks[0..1]
    );

    let orphan_page = core
        .orphan_node_ids_page(ReadPage::new(0, usize::MAX))
        .expect("bounded orphan page");
    assert!(orphan_page.len() <= ReadPage::MAX_LIMIT);
}

#[test]
fn repeated_mutation_and_reopen_keeps_record_revision_and_index_in_agreement() {
    let mut core = open();
    let source = core.create_node().expect("source");
    let target = core.create_node().expect("target");
    let mut last_revision = core.index_sync().record_revision;

    for iteration in 0..8 {
        let changed = core
            .set_property(source.id, "counter".to_owned(), PropertyValue::Integer(iteration))
            .expect("canonical update");
        assert_eq!(changed.revision, last_revision + 1);
        last_revision = changed.revision;

        let linked = core
            .add_relationship(source.id, "links".to_owned(), target.id)
            .expect("relationship mutation");
        assert_eq!(linked.revision, last_revision + 1);
        last_revision = linked.revision;

        let rejected = core.apply_batch(&[
            Mutation::SetProperty {
                node_id: source.id,
                key: "rolled_back".to_owned(),
                value: PropertyValue::Boolean(true),
            },
            Mutation::RemoveRelationship {
                source: target.id,
                key: "missing".to_owned(),
                target: source.id,
            },
        ]);
        assert!(matches!(rejected, Err(CoreError::NotFound { .. })));
        assert_eq!(core.get_property(source.id, "rolled_back").expect("rolled-back fact"), None);
        assert_eq!(core.index_sync().record_revision, last_revision);

        let unlinked = core
            .remove_relationship(source.id, "links".to_owned(), target.id)
            .expect("relationship removal");
        assert_eq!(unlinked.revision, last_revision + 1);
        last_revision = unlinked.revision;

        core = reopen(core);
        let status = core.index_sync();
        assert_eq!(status.record_revision, last_revision);
        assert_eq!(status.applied_revision, last_revision);
        assert_eq!(status.state, IndexSyncState::Current);
        assert_eq!(
            core.get_property(source.id, "counter").expect("canonical Property"),
            Some(PropertyValue::Integer(iteration))
        );
        assert!(core
            .query_relationships(source.id, RelationshipDirection::Outgoing, Some("links"))
            .expect("canonical Relationships")
            .is_empty());
        assert_eq!(
            core.query_properties(&PropertyQuery {
                key: "counter".to_owned(),
                filter: Some(PropertyFilter::Equals(PropertyValue::Integer(iteration))),
                sort: PropertySort::Ascending,
                limit: 10,
            })
            .expect("derived Index query")
            .len(),
            1
        );
    }
}

#[test]
fn writes_are_refused_while_the_boundary_cannot_be_shown() {
    let boundary = StorageBoundary::Protected {
        library_root: "/library".to_owned(),
        root_fingerprint: "unix:/library:1:2".to_owned(),
        sentinel: "sentinel".to_owned(),
    };
    let mut core = match CoreState::open(
        RecordStore::new(),
        &IndexFile::Missing,
        boundary,
        evidence(),
        Err(CoreError::Database("no recovery material".to_owned())),
    ) {
        Ok(core) => core,
        Err(error) => panic!("{}", error.to_string()),
    };
    let node = core.create_node().expect("the boundary holds");
    core.observe(
        BoundaryEvidence {
            root_is_dir: true,
            fingerprint: Ok("unix:/library:1:3".to_owned()),
            sentinel: Ok("sentinel".to_owned()),
        },
        Err(CoreError::Database("no recovery material".to_owned())),
    );
    let refused = |r: Result<(), CoreError>| match r {
        Err(error) => assert_eq!(
            error.to_string(),
            "protected Store is unavailable: the protected Store root does not match its configured storage identity"
        ),
        Ok(_) => panic!("the boundary does not hold"),
    };
    refused(core.create_node().map(|_| ()));
    refused(core.create_nodes(2).map(|_| ()));
    refused(core.set_property(node.id, "key".to_owned(), PropertyValue::Null).map(|_| ()));
    refused(
        core.register_property_definition(&property_definition("key", "Key", "test")).map(|_| ()),
    );
    refused(core.rebuild_index().map(|_| ()));
    refused(core.reconcile_index().map(|_| ()));
    refused(core.replace_content_projection(&[], &[]));
    refused(core.assert_writable());
    assert_eq!(core.index_sync().record_revision, 1);
    assert_eq!(core.get_node(node.id).expect("reads go on").id, node.id);
    core.observe(evidence(), Err(CoreError::Database("no recovery material".to_owned())));
    core.set_property(node.id, "key".to_owned(), PropertyValue::Null).expect("writes go on");
}

#[test]
fn errors_name_their_category_and_say_what_failed() {
    let mut core = open();
    let node = core.create_node().expect("node");
    let missing = NodeId::new();
    let error = core.get_node(missing).expect_err("no such Node");
    assert_eq!(error.category(), CoreErrorCategory::NotFound);
    assert!(error.to_string().contains(&missing.to_string()));
    assert!(matches!(
        core.set_property(node.id, "".to_owned(), PropertyValue::Null),
        Err(CoreError::InvalidProperty(_))
    ));
    assert_eq!(
        core.set_property(node.id, " b\n".to_owned(), PropertyValue::Null)
            .expect_err("a key with blanks")
            .to_string(),
        "invalid property key: invalid key \" b\\n\""
    );
    assert_eq!(
        core.add_relationship(node.id, "k".repeat(256), node.id)
            .expect_err("a long key")
            .category(),
        CoreErrorCategory::InvalidRelationship
    );
    core.set_property(node.id, "k".repeat(255), PropertyValue::Null).expect("the longest key");
    assert!(matches!(
        core.add_relationship(node.id, " ".to_owned(), node.id),
        Err(CoreError::InvalidRelationship(_))
    ));
    assert!(matches!(
        core.set_property(node.id, "day".to_owned(), PropertyValue::Date("2026-13-01".to_owned())),
        Err(CoreError::InvalidPropertyValue(_))
    ));
    assert!(matches!(core.apply_batch(&[]), Err(CoreError::Conflict(_))));
    assert!(matches!(core.restore_node(node.id), Err(CoreError::Conflict(_))));
    assert!(matches!(
        core.deprecate_property_definition("unknown", None),
        Err(CoreError::DefinitionNotFound(_))
    ));
    core.register_property_definition(&property_definition("alpha", "Alpha", "test"))
        .expect("register");
    assert!(matches!(
        core.register_property_definition(&property_definition("alpha", "Alpha", "test")),
        Err(CoreError::AlreadyExists { .. })
    ));
    assert!(matches!(
        core.list_nodes_page(ReadPage::new(u64::MAX, 1)),
        Err(CoreError::Conflict(_))
    ));
}

#[test]
fn the_journal_keeps_the_latest_revisions_only() {
    let mut records = RecordStore::new();
    let mut index = IndexStore::new();
    let node = records.create_node().expect("Node");
    for round in 0..1_040 {
        records
            .apply_batch(&[Mutation::SetProperty {
                node_id: node.id,
                key: "round".to_owned(),
                value: PropertyValue::Integer(round),
            }])
            .expect("Property");
    }
    assert_eq!(records.current_revision(), 1_041);
    assert_eq!(records.prune_change_journal(), 17);
    let kept = records.recent_changes(0);
    assert_eq!(kept.len(), 1_024);
    assert_eq!(kept[0].revision, 18);
    assert_eq!(kept[1_023].revision, 1_041);
    assert_eq!(records.recent_changes(1_040).len(), 1);
    assert!(matches!(
        index.reconcile(&records).expect("the journal does not reach back"),
        ReconcileOutcome::Rebuilt { revision: 1_041, reason: IndexRebuildReason::JournalUnavailable }
    ));
    assert_eq!(
        RecordStore::load(&records.to_rows()).expect("pruned store").current_revision(),
        1_041
    );
    let mut kept_behind = RecordStore::load(&records.to_rows()).expect("the same store");
    kept_behind.clear_change_journal();
    assert!(kept_behind.recent_changes(0).is_empty());
    assert_eq!(kept_behind.get_node(node.id).expect("Node"), node);
}

#[test]
fn setting_and_removing_a_property_leaves_the_rest() {
    let mut core = open();
    let nodes = core.create_nodes(2).expect("Nodes");
    core.set_property(nodes[0].id, "kept".to_owned(), text("kept")).expect("kept");
    core.add_relationship(nodes[0].id, "links".to_owned(), nodes[1].id).expect("link");
    core.set_property(nodes[0].id, "gone".to_owned(), text("one")).expect("set");
    core.set_property(nodes[0].id, "gone".to_owned(), text("two")).expect("set again");
    assert_eq!(core.get_property(nodes[0].id, "gone").expect("value"), Some(text("two")));
    core.remove_property(nodes[0].id, "gone".to_owned()).expect("remove");
    assert_eq!(
        core.list_properties(nodes[0].id).expect("values"),
        vec![("kept".to_owned(), text("kept"))]
    );
    assert!(core.list_properties(nodes[1].id).expect("values").is_empty());
    assert_eq!(
        core.query_relationships(nodes[1].id, RelationshipDirection::Incoming, Some("links"))
            .expect("links")
            .len(),
        1
    );
    assert!(matches!(
        core.remove_property(nodes[0].id, "gone".to_owned()),
        Err(CoreError::NotFound { entity: "Property", .. })
    ));
}

#[test]
fn no_page_is_longer_than_a_thousand() {
    let mut core = open();
    core.create_nodes(1_205).expect("Nodes");
    assert_eq!(core.list_nodes_page(ReadPage::new(0, usize::MAX)).expect("page").len(), 1_000);
    assert_eq!(core.list_nodes_page(ReadPage::new(1_000, 1_000)).expect("page").len(), 205);
    assert_eq!(core.list_nodes_page(ReadPage::new(5, 0)).expect("page").len(), 1);
    assert_eq!(core.list_nodes_cursor(usize::MAX, None).expect("page").items.len(), 1_000);
    assert!(core.list_nodes_page(ReadPage::new(5_000, 10)).expect("page").is_empty());
}

#[test]
fn a_rebuilt_index_answers_as_before_without_content() {
    let mut core = open();
    let nodes = core.create_nodes(2).expect("Nodes");
    core.set_property(nodes[0].id, "core.title".to_owned(), text("First")).expect("title");
    core.add_relationship(nodes[0].id, "links".to_owned(), nodes[1].id).expect("link");
    let listed = core.list_nodes();
    let graph = core.graph();
    let backlinks = core.backlinks(nodes[1].id);
    core.replace_content_projection(
        &[SearchDocumentInput {
            document_key: "d".to_owned(),
            node_id: nodes[1].id,
            source_kind: "page".to_owned(),
            title: "Second".to_owned(),
            body: String::new(),
            metadata: String::new(),
            source_locator: None,
            source_fingerprint: "v1".to_owned(),
        }],
        &[],
    )
    .expect("content");
    assert_ne!(core.graph(), graph);
    core.rebuild_index().expect("rebuild");
    assert_eq!(core.list_nodes(), listed);
    assert_eq!(core.graph(), graph);
    assert_eq!(core.backlinks(nodes[1].id), backlinks);
}

#[test]
fn minus_zero_is_kept_as_zero() {
    let mut core = open();
    let node = core.create_node().expect("Node");
    core.set_property(node.id, "zero".to_owned(), float(-0.0)).expect("minus zero");
    assert_eq!(core.get_property(node.id, "zero").expect("Property"), Some(float(0.0)));
    let list = PropertyValue::List(vec![float(-0.0)]);
    core.set_property(node.id, "list".to_owned(), list.clone()).expect("a list");
    assert_eq!(core.get_property(node.id, "list").expect("Property"), Some(list));
}
