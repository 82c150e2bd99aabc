//! Recovery material: what is written, what can be recovered, and from how far back.
use genesis_core::index::model::FailurePoint;
use genesis_core::index::schema::IndexFile;
use genesis_core::record_store::frames::{FrameNode, PatchFrame};
use genesis_core::record_store::model::RecordStore;
use genesis_core::record_store::projection::{JournalDelta, ProjectionPatch};
use genesis_core::record_store::schema::RecordRows;
use genesis_core::recovery::artifacts::{
    checksum_bytes, segment_filename, validate_local_filename, verify_artifact, BaselineArtifact,
    RecoveryManifest, RecoverySegment, SegmentArtifact,
};
use genesis_core::recovery::files::{
    check_baseline, damaged_filename, is_left_by_reset, is_unreferenced_segment,
};
use genesis_core::recovery::manager::{
    after_opening, before_opening, ensure_initialized, follow_reconstruction, reconcile_startup,
    OpenStep, RecoveryAction,
};
use genesis_core::recovery::plan::{best_plan, reconstruct, BaselineFacts, RecoveryPlan};
use genesis_core::security::{BoundaryEvidence, StorageBoundary};
use genesis_core::state::purges;
use genesis_core::{
    Commit, CoreError, CoreState, IdentityResolution, IndexSyncState, Mutation,
    NewPropertyDefinition, NewRelationshipDefinition, Node, NodeId, PropertyFilter, PropertyQuery,
    PropertySort, PropertyValue, PropertyValueKind, RecoveryState, RecoveryStatus, RelationshipDirection, StoreStatus,
};

fn text(value: &str) -> PropertyValue {
    PropertyValue::Text(value.to_owned())
}

fn damaged(name: &str) -> CoreError {
    CoreError::CorruptStore {
        store: "Record recovery",
        reason: format!("artifact {name} failed checksum validation"),
    }
}

/// Recovery material that is kept in memory.
struct Disk {
    manifest: Option<RecoveryManifest>,
    baselines: Vec<(String, RecordRows)>,
    segments: Vec<(String, ProjectionPatch)>,
    damaged: Vec<String>,
}

impl Disk {
    fn manifest(&self) -> Result<RecoveryManifest, CoreError> {
        match &self.manifest {
            Some(manifest) => Ok(manifest.copy()),
            None => Err(CoreError::Database("recovery manifest is missing".to_owned())),
        }
    }

    fn baseline(&mut self, records: &RecordStore, filename: &str) -> BaselineArtifact {
        self.baselines.retain(|item| item.0 != filename);
        self.baselines.push((filename.to_owned(), records.to_rows()));
        BaselineArtifact {
            filename: filename.to_owned(),
            revision: records.current_revision(),
            size_bytes: 0,
            checksum_sha256: checksum_bytes(&[]),
        }
    }

    fn rotate(&mut self, records: &RecordStore) {
        let slot = self.manifest.as_ref().expect("manifest").rotation_slot();
        let baseline = self.baseline(records, &slot);
        self.manifest.as_mut().expect("manifest").rotate(&slot, baseline);
        self.drop_unreferenced();
    }

    fn drop_unreferenced(&mut self) {
        let manifest = self.manifest.as_ref().expect("manifest");
        self.baselines.retain(|item| manifest.baselines.iter().any(|b| b.filename == item.0));
        self.segments.retain(|item| manifest.segments.iter().any(|s| s.filename == item.0));
    }

    fn perform(&mut self, records: &RecordStore, action: RecoveryAction) {
        match action {
            RecoveryAction::Nothing => {}
            RecoveryAction::Reset { purge_barrier_revision, note } => {
                let baseline = self.baseline(records, "baseline-A.sqlite");
                let previous = self.manifest.as_ref().map(|manifest| manifest.generation);
                self.manifest = Some(RecoveryManifest::reset(
                    previous,
                    baseline,
                    purge_barrier_revision,
                    note,
                ));
                self.drop_unreferenced();
            }
            RecoveryAction::Append(patch) => {
                let filename = segment_filename(patch.from_revision, patch.target_revision);
                let artifact = SegmentArtifact {
                    filename: filename.clone(),
                    from_revision: patch.from_revision,
                    through_revision: patch.target_revision,
                    size_bytes: 0,
                    checksum_sha256: checksum_bytes(&[]),
                };
                self.segments.push((filename, patch));
                if self.manifest.as_mut().expect("manifest").append(artifact) {
                    self.rotate(records);
                }
            }
        }
    }

    fn best(&self) -> Result<RecoveryPlan, CoreError> {
        let manifest = self.manifest()?;
        let found = manifest
            .baselines
            .iter()
            .map(|baseline| {
                if self.damaged.contains(&baseline.filename) {
                    Err(damaged(&baseline.filename))
                } else {
                    Ok(BaselineFacts { revision: baseline.revision, integrity_ok: true })
                }
            })
            .collect::<Vec<_>>();
        let reads = manifest
            .segments
            .iter()
            .map(|segment| {
                if self.damaged.contains(&segment.filename) {
                    return Err(damaged(&segment.filename));
                }
                let kept = self.segments.iter().find(|item| item.0 == segment.filename);
                let patch = &kept.expect("a segment of the manifest").1;
                Ok(RecoverySegment {
                    format_version: 1,
                    from_revision: segment.from_revision,
                    through_revision: segment.through_revision,
                    patch: patch.frame(),
                })
            })
            .collect::<Vec<_>>();
        best_plan(&manifest, &found, &reads)
    }

    fn recover(&mut self) -> RecordStore {
        let manifest = self.manifest().expect("manifest");
        let plan = self.best().expect("a plan");
        let rows = &self
            .baselines
            .iter()
            .find(|item| item.0 == plan.baseline.filename)
            .expect("the baseline")
            .1;
        let baseline = RecordStore::load(rows).expect("baseline");
        let patches = plan
            .segments
            .iter()
            .map(|place| {
                let filename = &manifest.segments[*place].filename;
                self.segments.iter().find(|item| &item.0 == filename).expect("file").1.frame()
            })
            .collect::<Vec<_>>();
        let recovered = match reconstruct(baseline, &patches, plan.recovered_revision) {
            Ok(store) => store,
            Err(error) => panic!("{}", error.to_string()),
        };
        let action = follow_reconstruction(&manifest, &plan);
        self.perform(&recovered, action);
        recovered
    }
}

/// A core with its recovery material.
struct Library {
    core: CoreState,
    disk: Disk,
    fail_next_catch_up: bool,
    fail_next_barrier: bool,
}

fn evidence() -> BoundaryEvidence {
    BoundaryEvidence {
        root_is_dir: true,
        fingerprint: Ok(String::new()),
        sentinel: Ok(String::new()),
    }
}

fn library(records: RecordStore, mut disk: Disk) -> Library {
    let action = ensure_initialized(&disk.manifest());
    disk.perform(&records, action);
    let action = reconcile_startup(&disk.manifest().expect("manifest"), &records);
    disk.perform(&records, action);
    let opened = CoreState::open(
        records,
        &IndexFile::Missing,
        StorageBoundary::Unprotected,
        evidence(),
        disk.manifest(),
    );
    match opened {
        Ok(core) => Library { core, disk, fail_next_catch_up: false, fail_next_barrier: false },
        Err(error) => panic!("{}", error.to_string()),
    }
}

fn open() -> Library {
    library(
        RecordStore::new(),
        Disk { manifest: None, baselines: vec![], segments: vec![], damaged: vec![] },
    )
}

fn store_status(path: &str, schema_version: u32) -> StoreStatus {
    StoreStatus {
        path: path.to_owned(),
        schema_version,
        integrity_ok: true,
        degraded_reason: None,
    }
}

impl Library {
    fn observe(&mut self) {
        self.core.observe(evidence(), self.disk.manifest());
    }

    fn follow(&mut self) {
        let work = self.core.take_recovery_work();
        if self.fail_next_catch_up {
            self.fail_next_catch_up = false;
        } else {
            self.disk.perform(self.core.record_store(), work);
        }
    }

    fn create_node(&mut self) -> Node {
        self.observe();
        let node = self.core.create_node().expect("Node");
        self.follow();
        node
    }

    fn apply_batch(&mut self, mutations: &[Mutation]) -> Result<Commit, CoreError> {
        self.observe();
        let commit = self.core.commit_batch(mutations)?;
        if purges(mutations) {
            let work = self.core.take_recovery_work();
            let barrier = if self.fail_next_barrier {
                self.fail_next_barrier = false;
                Err(CoreError::CorruptStore {
                    store: "Record recovery",
                    reason: "injected purge-barrier failure".to_owned(),
                })
            } else {
                self.disk.perform(self.core.record_store(), work);
                Ok(())
            };
            self.core.settle_purge(commit, barrier)
        } else {
            self.follow();
            Ok(commit)
        }
    }

    fn set_property(&mut self, node_id: NodeId, key: &str, value: PropertyValue) -> Commit {
        self.apply_batch(&[Mutation::SetProperty { node_id, key: key.to_owned(), value }])
            .expect("Property")
    }

    fn status(&mut self) -> RecoveryStatus {
        self.observe();
        let status = self.core.status(
            "library".to_owned(),
            store_status("library/.genesis/records.sqlite", 5),
            store_status("library/.genesis/index.sqlite", 4),
            &self.disk.best(),
        );
        assert_eq!(status.index_sync, self.core.index_sync());
        assert_ne!(status.record_store.path, status.index_store.path);
        status.recovery
    }

    fn reconcile_recovery(&mut self) -> RecoveryStatus {
        self.observe();
        let action = match self.core.reconcile_recovery(&self.disk.best()) {
            Ok(action) => action,
            Err(error) => panic!("{}", error.to_string()),
        };
        self.disk.perform(self.core.record_store(), action);
        self.status()
    }

    /// Loses both databases and opens again.
    fn lose_databases(self) -> Library {
        let mut disk = self.disk;
        assert_eq!(before_opening(false, true), OpenStep::Reconstruct);
        let recovered = disk.recover();
        library(recovered, disk)
    }
}

#[test]
fn ordinary_batch_ok_preserves_commit_while_both_follow_ups_lag() {
    let mut library = open();
    let id = NodeId::new();
    let content = "# Genesis Core Semantic Contract";
    let content_hash = checksum_bytes(content.as_bytes());
    library.core.inject_index_failure(FailurePoint::BeforeApply);
    library.fail_next_catch_up = true;
    let commit = library
        .apply_batch(&[
            Mutation::CreateNode { node_id: id },
            Mutation::SetProperty {
                node_id: id,
                key: "content.body".to_owned(),
                value: text(content),
            },
            Mutation::SetProperty {
                node_id: id,
                key: "content.sha256".to_owned(),
                value: text(&content_hash),
            },
        ])
        .expect("Ok is canonical success even when both follow-ups fail");
    assert_eq!(commit.change_count, 3);
    assert_eq!(library.core.resolve_identity(id), IdentityResolution::Active);
    assert_eq!(library.core.get_property(id, "content.body").unwrap(), Some(text(content)));
    assert_eq!(
        library.core.get_property(id, "content.sha256").unwrap(),
        Some(text(&content_hash))
    );
    assert_eq!(library.core.index_sync().record_revision, commit.revision);
    assert_eq!(library.core.index_sync().state, IndexSyncState::Stale);
    assert_eq!(library.status().state, RecoveryState::Lagging);
    library.reconcile_recovery();
    library.core.reconcile_index().expect("repair Index without retrying mutation");
    assert_eq!(library.core.index_sync().record_revision, commit.revision);
    assert_eq!(library.core.index_sync().state, IndexSyncState::Current);
    assert_eq!(library.status().state, RecoveryState::Current);
    assert_eq!(library.core.list_nodes().len(), 1);
}

#[test]
fn destroyed_record_store_reconstructs_graph_definitions_and_index() {
    let mut library = open();
    let source = library.create_node();
    let target = library.create_node();
    library.observe();
    library
        .core
        .register_property_definition(&NewPropertyDefinition {
            key: "genesis.title".to_owned(),
            label: "Title".to_owned(),
            description: Some("Recovered definition".to_owned()),
            expected_value_kind: Some(PropertyValueKind::Text),
            origin: "genesis".to_owned(),
        })
        .expect("Property definition");
    library.follow();
    library.observe();
    library
        .core
        .register_relationship_definition(&NewRelationshipDefinition {
            key: "genesis.links_to".to_owned(),
            forward_label: "Links to".to_owned(),
            inverse_label: Some("Linked from".to_owned()),
            description: Some("Recovered relationship definition".to_owned()),
            origin: "genesis".to_owned(),
        })
        .expect("Relationship definition");
    library.follow();
    library.set_property(source.id, "genesis.title", text("Recovered"));
    library
        .apply_batch(&[Mutation::AddRelationship {
            source: source.id,
            key: "genesis.links_to".to_owned(),
            target: target.id,
        }])
        .expect("Relationship");
    assert_eq!(library.status().state, RecoveryState::Current);

    let mut reopened = library.lose_databases();
    assert_eq!(reopened.core.get_node(source.id).expect("source ID"), source);
    assert_eq!(reopened.core.get_node(target.id).expect("target ID"), target);
    assert!(reopened.core.record_store().is_id_issued(source.id));
    assert_eq!(
        reopened.core.get_property(source.id, "genesis.title").expect("Property"),
        Some(text("Recovered"))
    );
    assert_eq!(
        reopened
            .core
            .query_relationships(source.id, RelationshipDirection::Outgoing, None)
            .expect("Relationship")
            .len(),
        1
    );
    assert_eq!(
        reopened.core.get_property_definition("genesis.title").expect("definition").label,
        "Title"
    );
    assert_eq!(
        reopened
            .core
            .get_relationship_definition("genesis.links_to")
            .expect("definition")
            .forward_label,
        "Links to"
    );
    assert_eq!(reopened.status().state, RecoveryState::Current);
    assert_eq!(reopened.core.index_sync().state, IndexSyncState::Current);
    let counted = reopened.core.index_store().projection_counts();
    assert_eq!((counted.nodes, counted.properties, counted.relationships), (2, 1, 1));
}

#[test]
fn corrupt_record_store_is_preserved_until_replacement_validates() {
    let failed: Result<(), CoreError> = Err(CoreError::Database("not a database".to_owned()));
    assert_eq!(after_opening(&failed, true), OpenStep::Reconstruct);
    assert_eq!(after_opening(&failed, false), OpenStep::Take);
    let newer: Result<(), CoreError> = Err(CoreError::UnsupportedSchema {
        store: "Record Store",
        found: 6,
        supported: 5,
    });
    assert_eq!(after_opening(&newer, true), OpenStep::Take);
    assert_eq!(after_opening(&Ok(()), true), OpenStep::Take);
    assert_eq!(before_opening(true, true), OpenStep::Take);
    assert_eq!(before_opening(false, false), OpenStep::Take);

    let mut library = open();
    let node = library.create_node();
    library.set_property(node.id, "title", text("recover me"));
    let reopened = library.lose_databases();
    assert_eq!(
        reopened.core.get_property(node.id, "title").expect("Property"),
        Some(text("recover me"))
    );
}

#[test]
fn corrupt_newest_baseline_falls_back_to_prior_baseline_and_segments() {
    let mut library = open();
    let node = library.create_node();
    library.disk.rotate(library.core.record_store());
    library.set_property(node.id, "title", text("from segment"));
    library.disk.rotate(library.core.record_store());
    let newest = library
        .disk
        .manifest()
        .expect("manifest")
        .baselines
        .iter()
        .max_by_key(|baseline| baseline.revision)
        .expect("newest baseline")
        .filename
        .clone();
    library.disk.damaged.push(newest);

    let mut reopened = library.lose_databases();
    reopened.disk.damaged.clear();
    assert_eq!(
        reopened.core.get_property(node.id, "title").expect("Property"),
        Some(text("from segment"))
    );
    assert_eq!(reopened.status().state, RecoveryState::Current);
}

#[test]
fn corrupt_segment_stops_at_exact_verified_confidence_boundary() {
    let mut library = open();
    let node = library.create_node();
    library.set_property(node.id, "one", PropertyValue::Integer(1));
    library.set_property(node.id, "two", PropertyValue::Integer(2));
    let segment = library
        .disk
        .manifest()
        .expect("manifest")
        .segments
        .iter()
        .find(|segment| segment.from_revision == 1 && segment.through_revision == 2)
        .expect("second segment")
        .filename
        .clone();
    library.disk.damaged.push(segment);

    let degraded = library.status();
    assert_eq!(degraded.state, RecoveryState::Degraded);
    assert_eq!(degraded.recoverable_revision, Some(1));
    assert!(degraded
        .note
        .as_deref()
        .is_some_and(|note| note.contains("confidence boundary is revision 1")));

    let mut reopened = library.lose_databases();
    assert_eq!(reopened.core.get_node(node.id).expect("verified Node"), node);
    assert_eq!(reopened.core.get_property(node.id, "one").expect("Property"), None);
    let recovered = reopened.status();
    assert_eq!(recovered.manifest_revision, Some(1));
    assert!(recovered
        .note
        .as_deref()
        .is_some_and(|note| note.contains("confidence boundary is revision 1")));
}

#[test]
fn recovery_lag_is_diagnosed_and_caught_up_from_live_truth() {
    let mut library = open();
    let node = library.create_node();
    library.fail_next_catch_up = true;
    library.set_property(node.id, "title", text("canonical"));

    let lagging = library.status();
    assert_eq!(lagging.state, RecoveryState::Lagging);
    assert_eq!(lagging.live_revision, 2);
    assert_eq!(lagging.manifest_revision, Some(1));
    let caught_up = library.reconcile_recovery();
    assert_eq!(caught_up.state, RecoveryState::Current);
    assert_eq!(caught_up.recoverable_revision, Some(2));
}

#[test]
fn purge_barrier_failure_reports_that_canonical_commit_completed() {
    let mut library = open();
    let node = library.create_node();
    library
        .apply_batch(&[Mutation::TombstoneNode { node_id: node.id }])
        .expect("tombstone Node");
    library.fail_next_barrier = true;

    let error = library
        .apply_batch(&[Mutation::PurgeNode { node_id: node.id }])
        .expect_err("injected barrier failure");
    let revision = match error {
        CoreError::PostCommitFailure { revision, follow_up: "purge recovery barrier", reason } => {
            assert_eq!(reason, "Record recovery failed validation: injected purge-barrier failure");
            revision
        }
        other => panic!("expected explicit post-commit failure, received {}", other.to_string()),
    };
    assert_eq!(
        library.core.resolve_identity(node.id),
        IdentityResolution::Retired,
        "the returned error must not imply that the canonical purge rolled back"
    );

    let repaired = library.reconcile_recovery();
    assert_eq!(repaired.state, RecoveryState::Current);
    assert_eq!(repaired.purge_barrier_revision, Some(revision));
    assert_eq!(repaired.recoverable_revision, Some(revision));
}

#[test]
fn manifest_tampering_is_detected_and_healed_only_from_live_truth() {
    let mut library = open();
    let node = library.create_node();
    let mut tampered = library.disk.manifest().expect("manifest");
    let bytes = b"the manifest as it was written";
    let checksum = checksum_bytes(bytes);
    assert!(tampered.check(bytes, &checksum).is_ok());
    assert!(tampered.check_against("a", "a").is_ok());
    assert!(tampered.check_against("a", "b").is_err());
    tampered.recovery_revision = 999;
    let error = tampered.check(b"the manifest as it was changed", &checksum);
    assert_eq!(
        error.expect_err("tampered").to_string(),
        "Record recovery failed validation: recovery manifest checksum mismatch"
    );
    library.disk.manifest = None;
    assert_eq!(library.status().state, RecoveryState::Unavailable);

    let rows = library.core.record_store().to_rows();
    let mut reopened =
        self::library(RecordStore::load(&rows).expect("live Record"), library.disk);
    assert_eq!(reopened.core.get_node(node.id).expect("Node survives"), node);
    assert_eq!(reopened.status().state, RecoveryState::Current);
}

#[test]
fn completed_purge_barrier_prevents_recovery_from_reconstructing_node() {
    let mut library = open();
    let node = library.create_node();
    library.set_property(node.id, "secret", text("retire"));
    library.disk.rotate(library.core.record_store());
    library
        .apply_batch(&[Mutation::TombstoneNode { node_id: node.id }])
        .expect("tombstone");
    let purge = library
        .apply_batch(&[Mutation::PurgeNode { node_id: node.id }])
        .expect("purge with barrier");
    let status = library.status();
    assert_eq!(status.purge_barrier_revision, Some(purge.revision));
    assert_eq!(status.baseline_count, 1);
    assert_eq!(status.segment_count, 0);
    assert_eq!(library.disk.baselines.len(), 1);

    let mut reopened = library.lose_databases();
    assert!(matches!(reopened.core.get_node(node.id), Err(CoreError::NotFound { .. })));
    assert!(reopened.core.record_store().is_id_issued(node.id));
    assert!(matches!(
        reopened.core.create_node_with_id(node.id),
        Err(CoreError::AlreadyExists { .. })
    ));
    assert_eq!(reopened.status().purge_barrier_revision, Some(purge.revision));
}

#[test]
fn recovery_rotation_keeps_two_baselines_and_bounded_segments() {
    let mut library = open();
    let node = library.create_node();
    for revision in 0..130 {
        library.set_property(node.id, "counter", PropertyValue::Integer(revision));
    }
    let status = library.status();
    assert_eq!(status.state, RecoveryState::Current);
    assert_eq!(status.baseline_count, 2);
    assert!(status.segment_count <= 128);
    assert_eq!(library.disk.baselines.len(), 2);
    let reopened = library.lose_databases();
    assert_eq!(
        reopened.core.get_property(node.id, "counter").expect("Property"),
        Some(PropertyValue::Integer(129))
    );
}

#[test]
fn artifacts_are_named_and_checked() {
    assert_eq!(
        checksum_bytes(b"abc"),
        "ba7816bf8f01cfea414140de5dae2223b00361a396177a9cb410ff61f20015ad"
    );
    assert_eq!(
        segment_filename(41, 42),
        "segment-00000000000000000042-00000000000000000042.json"
    );
    assert!(validate_local_filename("baseline-A.sqlite").is_ok());
    for name in ["", "a/b", "/a", "../a"] {
        assert!(validate_local_filename(name).is_err(), "{name}");
    }
    let checksum = checksum_bytes(b"abc");
    assert!(verify_artifact("x", b"abc", 3, &checksum).is_ok());
    assert_eq!(
        verify_artifact("x", b"abd", 3, &checksum).expect_err("changed").to_string(),
        "Record recovery failed validation: artifact x failed checksum validation"
    );
    assert!(verify_artifact("x", b"abc", 4, &checksum).is_err());
}

#[test]
fn files_that_recovery_leaves_behind_are_known() {
    let mut library = open();
    library.create_node();
    let manifest = library.disk.manifest().expect("manifest");
    assert!(!is_unreferenced_segment(&manifest, &segment_filename(0, 1)));
    assert!(is_unreferenced_segment(&manifest, &segment_filename(1, 2)));
    assert!(is_left_by_reset("baseline-B.sqlite"));
    assert!(!is_left_by_reset("baseline-A.sqlite"));
    assert!(!is_left_by_reset("baseline-B.sqlite-wal"));
    assert!(!is_left_by_reset("records.sqlite"));
    assert_eq!(damaged_filename(12), "records.damaged-12.sqlite");
    let facts = BaselineFacts { revision: 3, integrity_ok: true };
    assert!(check_baseline(3, facts).is_ok());
    assert_eq!(
        check_baseline(4, facts).expect_err("another revision").to_string(),
        "Record recovery failed validation: online baseline failed validation"
    );
}

#[test]
fn material_that_is_ahead_is_reset() {
    let mut library = open();
    library.create_node();
    let manifest = library.disk.manifest().expect("manifest");
    let empty = RecordStore::new();
    match reconcile_startup(&manifest, &empty) {
        RecoveryAction::Reset { purge_barrier_revision: None, note: Some(note) } => {
            assert!(note.contains("ahead of live canonical truth"))
        }
        _ => panic!("the material is ahead"),
    }
}

#[test]
fn a_patch_leads_from_one_store_to_the_next() {
    let mut live = RecordStore::new();
    let node = live.create_node().expect("Node");
    let rows = live.to_rows();
    live.apply_batch(&[
        Mutation::SetProperty { node_id: node.id, key: "k".to_owned(), value: text("v") },
        Mutation::TombstoneNode { node_id: node.id },
    ])
    .expect("batch");
    let mut library = open();
    library.disk.perform(&RecordStore::load(&rows).expect("earlier"), RecoveryAction::Reset {
        purge_barrier_revision: None,
        note: None,
    });
    let action = reconcile_startup(&library.disk.manifest().expect("manifest"), &live);
    assert!(matches!(&action, RecoveryAction::Append(_)));
    library.disk.perform(&live, action);
    let recovered = library.disk.recover();
    assert_eq!(recovered.current_revision(), 2);
    assert_eq!(recovered.resolve_identity(node.id), IdentityResolution::Tombstoned);
    assert_eq!(recovered.get_property(node.id, "k").expect("Property"), Some(text("v")));
}

#[test]
fn six_primitives_survive_index_destruction_and_record_recovery() {
    let mut library = open();
    let source = library.create_node();
    let target = library.create_node();
    let links_to = || Mutation::AddRelationship {
        source: source.id,
        key: "links_to".to_owned(),
        target: target.id,
    };
    library.set_property(source.id, "title", text("Headless"));
    library.apply_batch(&[links_to()]).expect("create Relationship");
    assert_eq!(
        library.core.get_property(source.id, "title").expect("read Property"),
        Some(text("Headless"))
    );
    let outgoing = |core: &CoreState| {
        core.query_relationships(source.id, RelationshipDirection::Outgoing, Some("links_to"))
            .expect("traverse Relationship")
            .len()
    };
    assert_eq!(outgoing(&library.core), 1);
    library
        .apply_batch(&[Mutation::RemoveRelationship {
            source: source.id,
            key: "links_to".to_owned(),
            target: target.id,
        }])
        .expect("remove Relationship");
    assert_eq!(outgoing(&library.core), 0);
    library.apply_batch(&[links_to()]).expect("restore Relationship for persistence proof");
    let query = PropertyQuery {
        key: "title".to_owned(),
        filter: Some(PropertyFilter::Equals(text("Headless"))),
        sort: PropertySort::Ascending,
        limit: 10,
    };
    assert_eq!(library.core.query_properties(&query).expect("query Index").len(), 1);
    library.reconcile_recovery();

    let records = RecordStore::load(&library.core.record_store().to_rows()).expect("records");
    let mut rebuilt = self::library(records, library.disk);
    rebuilt.core.rebuild_index().expect("rebuild Index from Record truth");
    assert_eq!(rebuilt.core.get_node(source.id).expect("canonical Node").id, source.id);
    assert_eq!(
        rebuilt.core.get_property(source.id, "title").expect("canonical Property"),
        Some(text("Headless"))
    );

    let recovered = rebuilt.lose_databases();
    assert_eq!(recovered.core.get_node(source.id).expect("recovered Node").id, source.id);
    assert_eq!(outgoing(&recovered.core), 1);
}

fn definition(key: &str) -> NewPropertyDefinition {
    NewPropertyDefinition {
        key: key.to_owned(),
        label: "Label".to_owned(),
        description: None,
        expected_value_kind: None,
        origin: "test".to_owned(),
    }
}

fn frame_since(live: &RecordStore, revision: u64) -> PatchFrame {
    match live.projection_delta_since(revision) {
        JournalDelta::Available(patch) => patch.frame(),
        _ => panic!("the journal reaches back"),
    }
}

#[test]
fn a_segment_of_another_version_is_refused() {
    let mut live = RecordStore::new();
    live.create_node().expect("Node");
    let mut segment = RecoverySegment {
        format_version: 1,
        from_revision: 0,
        through_revision: 1,
        patch: frame_since(&live, 0),
    };
    assert!(segment.check_version().is_ok());
    segment.format_version = 2;
    assert!(segment.check_version().is_err());
}

#[test]
fn a_definition_of_a_frame_comes_to_stand_under_its_own_key() {
    let mut live = RecordStore::new();
    live.register_property_definition(&definition("k")).expect("definition");
    let mut frame = frame_since(&live, 0);
    frame.property_definitions[0].key = "other".to_owned();
    let mut candidate = RecordStore::new();
    candidate.apply_recovery_patch(&frame).expect("nothing stands in the way");
    assert_eq!(candidate.current_revision(), 1);
    assert!(candidate.get_property_definition("k").is_ok());
    assert!(candidate.get_property_definition("other").is_err());

    let mut candidate = RecordStore::new();
    candidate.register_property_definition(&definition("k")).expect("definition");
    frame.from_revision = 1;
    frame.target_revision = 2;
    assert!(matches!(candidate.apply_recovery_patch(&frame), Err(CoreError::Database(_))));
    assert_eq!(candidate.current_revision(), 1);
    frame.property_definitions[0].key = "k".to_owned();
    candidate.apply_recovery_patch(&frame).expect("its own row makes room");
}

#[test]
fn a_node_of_a_frame_comes_under_its_own_id() {
    let mut live = RecordStore::new();
    let node = live.create_node().expect("Node");
    let other = NodeId::new();
    let mut frame = frame_since(&live, 0);
    frame.nodes[0].key = other;
    let mut candidate = RecordStore::new();
    candidate.apply_recovery_patch(&frame).expect("frame");
    assert_eq!(candidate.resolve_identity(node.id), IdentityResolution::Active);
    assert_eq!(candidate.resolve_identity(other), IdentityResolution::NeverIssued);
}

#[test]
fn the_first_row_of_a_frame_that_fails_decides() {
    let mut live = RecordStore::new();
    let node = live.create_node().expect("Node");
    live.apply_batch(&[
        Mutation::SetProperty { node_id: node.id, key: "a".to_owned(), value: text("1") },
        Mutation::SetProperty { node_id: node.id, key: "b".to_owned(), value: text("2") },
    ])
    .expect("Properties");
    let fails = |change: &dyn Fn(&mut FrameNode)| {
        let mut frame = frame_since(&live, 0);
        change(frame.nodes[0].row.as_mut().expect("a Node"));
        let mut candidate = RecordStore::new();
        let error = candidate.apply_recovery_patch(&frame).expect_err("a row that fails");
        assert_eq!(candidate.current_revision(), 0);
        assert_eq!(candidate.resolve_identity(node.id), IdentityResolution::NeverIssued);
        error
    };
    let bad_date = || PropertyValue::Date("never".to_owned());
    assert!(matches!(
        fails(&|row| row.properties[1].value = bad_date()),
        CoreError::InvalidPropertyValue(_)
    ));
    assert!(matches!(
        fails(&|row| {
            row.created_revision = 0;
            row.properties[1].value = bad_date();
        }),
        CoreError::Database(_)
    ));
    assert!(matches!(
        fails(&|row| {
            row.properties[0].modified_revision = 0;
            row.properties[1].value = bad_date();
        }),
        CoreError::Database(_)
    ));
    let both = fails(&|row| {
        row.properties[0].value = PropertyValue::DateTime("never".to_owned());
        row.properties[1].value = bad_date();
    });
    assert!(both.to_string().contains("date-times"));
    assert!(matches!(
        fails(&|row| row.properties[1].key = "a".to_owned()),
        CoreError::Database(_)
    ));
    for key in ["", "\0", "\0a"] {
        assert!(matches!(
            fails(&|row| row.properties[0].key = key.to_owned()),
            CoreError::Database(_)
        ));
    }
}

#[test]
fn a_restored_node_is_what_it_was() {
    let mut library = open();
    let node = library.create_node();
    let peer = library.create_node();
    library.set_property(node.id, "k", text("v"));
    library
        .apply_batch(&[Mutation::AddRelationship {
            source: node.id,
            key: "links".to_owned(),
            target: peer.id,
        }])
        .expect("link");
    let before = library
        .core
        .query_relationships(node.id, RelationshipDirection::Either, None)
        .expect("links");
    library.apply_batch(&[Mutation::TombstoneNode { node_id: node.id }]).expect("tombstone");
    let refused = library.apply_batch(&[Mutation::SetProperty {
        node_id: node.id,
        key: "k".to_owned(),
        value: text("w"),
    }]);
    assert!(matches!(refused, Err(CoreError::Conflict(_))));
    let restore = [Mutation::RestoreNode { node_id: node.id }];
    library.apply_batch(&restore).expect("restore");
    assert_eq!(library.core.resolve_identity(node.id), IdentityResolution::Active);
    assert_eq!(library.core.get_property(node.id, "k").expect("Property"), Some(text("v")));
    let after = library
        .core
        .query_relationships(node.id, RelationshipDirection::Either, None)
        .expect("links");
    assert_eq!(after, before);
    assert!(matches!(library.apply_batch(&restore), Err(CoreError::Conflict(_))));
    let again = library.apply_batch(&[Mutation::CreateNode { node_id: node.id }]);
    assert!(again.is_err());
}

fn set_number(node_id: NodeId, n: i64) -> Mutation {
    Mutation::SetProperty { node_id, key: "n".to_owned(), value: PropertyValue::Integer(n) }
}

#[test]
fn a_pruned_journal_leaves_what_was_recovered_from_it() {
    let mut live = RecordStore::new();
    let mut library = open();
    library.disk.perform(&live, RecoveryAction::Reset { purge_barrier_revision: None, note: None });
    let node = live.create_node().expect("Node");
    for n in 0..6_i64 {
        live.apply_batch(&[set_number(node.id, n)]).expect("Property");
    }
    let action = reconcile_startup(&library.disk.manifest().expect("manifest"), &live);
    library.disk.perform(&live, action);
    assert_eq!(live.prune_changes_through(5), 5);
    assert!(matches!(
        live.projection_delta_since(2),
        JournalDelta::Unavailable { current_revision: 7 }
    ));
    live.apply_batch(&[set_number(node.id, 9)]).expect("Property");
    let action = reconcile_startup(&library.disk.manifest().expect("manifest"), &live);
    assert!(matches!(&action, RecoveryAction::Append(_)));
    library.disk.perform(&live, action);
    let recovered = library.disk.recover();
    assert_eq!(recovered.current_revision(), 8);
    assert_eq!(
        recovered.get_property(node.id, "n").expect("Property"),
        Some(PropertyValue::Integer(9))
    );
}
