//! Which Index databases are read, which are migrated, and which are built anew.
use vstd::prelude::*;
use crate::api::{IndexRebuildReason, ReconcileOutcome, Relationship, SearchDocumentInput};
use crate::error::{corrupt, CoreError, ErrorView};
use crate::id::NodeId;
use crate::index::model::{
    DerivedKey, DerivedRow, IndexModel, IndexStore, IndexedNodeRow, IndexedNodeView,
    IndexedRelationshipRow,
};
use crate::index::projection::{
    law_rebuild_shows_records, law_reconcile_follows_history, rebuild_fault, rebuilt_index,
    reconcile_fault, reconcile_outcome, reconciled,
};
use crate::paging::{lemma_in_order_lists, lemma_split_exists};
use crate::record_store::history::is_history;
use crate::record_store::laws::consistent;
use crate::record_store::model::{
    NodeRowView, PropertyDefinitionRow, PropertyRowView, RecordModel, RecordStore,
    RelationshipDefinitionRow,
};
use crate::record_store::projection::ProjectionSnapshot;
use crate::record_store::queries::optional_str;
use crate::record_store::schema::{rows_read, table_of};
use crate::table::{ascending, in_order, lemma_lists_in_order, TableKey, TableRow};
use crate::text::{join3, join5};

verus! {

/// The schema of the Index.
pub const INDEX_SCHEMA_VERSION: u32 = 4;

/// An Index that cannot be right.
pub open spec fn corrupt_index(reason: Seq<char>) -> ErrorView {
    ErrorView::CorruptStore { store: "Index Store"@, reason }
}

/// An Index of another version.
pub open spec fn other_index_version(found: u32) -> ErrorView {
    ErrorView::UnsupportedSchema { store: "Index Store"@, found, supported: INDEX_SCHEMA_VERSION }
}

/// What an Index database says of itself when it is opened.
#[derive(Debug, Clone, Copy, PartialEq, Eq, Structural)]
pub struct IndexFacts {
    pub quick_check_ok: bool,
    pub user_version: u32,
    pub meta_rows: u32,
    pub meta_version: u32,
    pub minimum_reader: u32,
    pub applied_revision: i64,
}

/// Why an Index database is refused.
pub open spec fn index_facts_fault(f: IndexFacts) -> Option<ErrorView> {
    if !f.quick_check_ok {
        Some(corrupt_index("SQLite quick_check did not return ok"@))
    } else if f.user_version != INDEX_SCHEMA_VERSION {
        Some(other_index_version(f.user_version))
    } else if f.meta_rows != 1 || f.meta_version != INDEX_SCHEMA_VERSION || f.minimum_reader
        > INDEX_SCHEMA_VERSION || f.applied_revision < 0 {
        Some(
            corrupt_index("index_meta is missing or inconsistent with the supported schema"@),
        )
    } else {
        None
    }
}

/// Refuses an Index database that is damaged, of another version, or inconsistent.
pub fn validate(facts: &IndexFacts) -> (r: Result<(), CoreError>)
    ensures
        match r {
            Ok(_) => index_facts_fault(*facts) is None,
            Err(e) => index_facts_fault(*facts) == Some(e@),
        },
{
    if !facts.quick_check_ok {
        return Err(corrupt("Index Store", "SQLite quick_check did not return ok"));
    }
    if facts.user_version != INDEX_SCHEMA_VERSION {
        return Err(
            CoreError::UnsupportedSchema {
                store: "Index Store",
                found: facts.user_version,
                supported: INDEX_SCHEMA_VERSION,
            },
        );
    }
    if facts.meta_rows != 1 || facts.meta_version != INDEX_SCHEMA_VERSION || facts.minimum_reader
        > INDEX_SCHEMA_VERSION || facts.applied_revision < 0 {
        return Err(
            corrupt(
                "Index Store",
                "index_meta is missing or inconsistent with the supported schema",
            ),
        );
    }
    Ok(())
}

/// What brings an Index database to the current schema: nothing, creating everything, or adding
/// the schemas after the one it has.
#[derive(Debug, Clone, Copy, PartialEq, Eq, Structural)]
pub enum IndexMigration {
    Nothing,
    Create,
    AddAfter { version: u32 },
}

/// What brings an Index database of this version to the current schema, or why it is refused.
pub open spec fn index_migration_result(version: u32, tables: u32) -> Result<
    IndexMigration,
    ErrorView,
> {
    if version == INDEX_SCHEMA_VERSION {
        Ok(IndexMigration::Nothing)
    } else if version == 0 {
        if tables != 0 {
            Err(corrupt_index("unversioned database already contains tables"@))
        } else {
            Ok(IndexMigration::Create)
        }
    } else if version < INDEX_SCHEMA_VERSION {
        Ok(IndexMigration::AddAfter { version })
    } else {
        Err(other_index_version(version))
    }
}

/// Decides what brings an Index database to the current schema.
pub fn plan_migration(version: u32, existing_tables: u32) -> (r: Result<IndexMigration, CoreError>)
    ensures
        match r {
            Ok(migration) => index_migration_result(version, existing_tables) == Ok::<
                IndexMigration,
                ErrorView,
            >(migration),
            Err(e) => index_migration_result(version, existing_tables) == Err::<
                IndexMigration,
                ErrorView,
            >(e@),
        },
{
    if version == INDEX_SCHEMA_VERSION {
        Ok(IndexMigration::Nothing)
    } else if version == 0 {
        if existing_tables != 0 {
            Err(corrupt("Index Store", "unversioned database already contains tables"))
        } else {
            Ok(IndexMigration::Create)
        }
    } else if version < INDEX_SCHEMA_VERSION {
        Ok(IndexMigration::AddAfter { version })
    } else {
        Err(
            CoreError::UnsupportedSchema {
                store: "Index Store",
                found: version,
                supported: INDEX_SCHEMA_VERSION,
            },
        )
    }
}

/// How many rows the tables of an Index hold, and the revision it shows.
#[derive(Debug, Clone, Copy, PartialEq, Eq, Structural)]
pub struct ProjectionCounts {
    pub nodes: u64,
    pub properties: u128,
    pub relationships: u64,
    pub property_definitions: u64,
    pub relationship_definitions: u64,
    pub revision: u64,
}

/// How many Properties the first `n` of these Nodes have.
pub open spec fn properties_of_first<R>(
    nodes: Map<NodeId, R>,
    properties: spec_fn(R) -> Map<Seq<char>, PropertyRowView>,
    n: nat,
) -> nat
    decreases n,
{
    if n == 0 {
        0
    } else {
        properties_of_first(nodes, properties, (n - 1) as nat) + properties(
            nodes[in_order::<NodeId>(nodes.dom())[n - 1]],
        ).dom().len()
    }
}

/// How many Properties all these Nodes have.
pub open spec fn property_total<R>(
    nodes: Map<NodeId, R>,
    properties: spec_fn(R) -> Map<Seq<char>, PropertyRowView>,
) -> nat {
    properties_of_first(nodes, properties, nodes.dom().len())
}

/// What an Index of a Record Store with this content counts.
pub open spec fn records_counted(c: ProjectionCounts, m: RecordModel) -> bool {
    &&& c.nodes == m.nodes.dom().len()
    &&& c.properties == property_total(m.nodes, |row: NodeRowView| row.properties)
    &&& c.relationships == m.relationships.dom().len()
    &&& c.property_definitions == m.property_definitions.dom().len()
    &&& c.relationship_definitions == m.relationship_definitions.dom().len()
    &&& c.revision == m.revision
}

/// What an Index with this content counts.
pub open spec fn index_counted(c: ProjectionCounts, x: IndexModel) -> bool {
    &&& c.nodes == x.nodes.dom().len()
    &&& c.properties == property_total(x.nodes, |row: IndexedNodeView| row.properties)
    &&& c.relationships == x.relationships.dom().len()
    &&& c.property_definitions == x.property_definitions.dom().len()
    &&& c.relationship_definitions == x.relationship_definitions.dom().len()
    &&& c.revision == x.applied_revision
}

impl ProjectionSnapshot {
    /// What an Index that is built of this snapshot must count.
    pub fn expected_counts(&self) -> (r: ProjectionCounts)
        requires
            self.wf(),
        ensures
            forall|m: RecordModel| #[trigger] self.shows(m) ==> records_counted(r, m),
    {
        let ghost properties_of = |row: NodeRowView| row.properties;
        let nodes = &self.nodes;
        let mut properties: u128 = 0;
        let mut i: usize = 0;
        while i < nodes.len()
            invariant
                nodes.wf(),
                i <= nodes.keys().len(),
                properties_of == (|row: NodeRowView| row.properties),
                properties == properties_of_first(nodes@, properties_of, i as nat),
                properties <= i * u64::MAX,
            decreases nodes.keys().len() - i,
        {
            proof {
                nodes.lemma_view();
                assert(i * u64::MAX + u64::MAX == (i + 1) * u64::MAX) by (nonlinear_arith);
                assert((i + 1) * u64::MAX <= u64::MAX * u64::MAX) by (nonlinear_arith)
                    requires
                        i + 1 <= u64::MAX,
                ;
            }
            properties = properties + nodes.row_at(i).properties.len() as u128;
            i = i + 1;
        }
        ProjectionCounts {
            nodes: nodes.len() as u64,
            properties,
            relationships: self.relationships.len() as u64,
            property_definitions: self.property_definitions.len() as u64,
            relationship_definitions: self.relationship_definitions.len() as u64,
            revision: self.revision,
        }
    }
}

impl IndexStore {
    /// How many rows the Index holds, and the revision it shows.
    pub fn projection_counts(&self) -> (r: ProjectionCounts)
        requires
            self.wf(),
        ensures
            index_counted(r, self@),
    {
        let ghost properties_of = |row: IndexedNodeView| row.properties;
        let nodes = &self.nodes;
        let mut properties: u128 = 0;
        let mut i: usize = 0;
        while i < nodes.len()
            invariant
                nodes.wf(),
                i <= nodes.keys().len(),
                properties_of == (|row: IndexedNodeView| row.properties),
                properties == properties_of_first(nodes@, properties_of, i as nat),
                properties <= i * u64::MAX,
            decreases nodes.keys().len() - i,
        {
            proof {
                nodes.lemma_view();
                assert(i * u64::MAX + u64::MAX == (i + 1) * u64::MAX) by (nonlinear_arith);
                assert((i + 1) * u64::MAX <= u64::MAX * u64::MAX) by (nonlinear_arith)
                    requires
                        i + 1 <= u64::MAX,
                ;
            }
            properties = properties + nodes.row_at(i).properties.len() as u128;
            i = i + 1;
        }
        ProjectionCounts {
            nodes: nodes.len() as u64,
            properties,
            relationships: self.relationships.len() as u64,
            property_definitions: self.property_definitions.len() as u64,
            relationship_definitions: self.relationship_definitions.len() as u64,
            revision: self.applied_revision,
        }
    }
}

/// Refuses an Index database that was just built and does not hold what it was built of.
pub fn validate_projection(
    foreign_key_failures: i64,
    found: &ProjectionCounts,
    snapshot: &ProjectionSnapshot,
) -> (r: Result<(), CoreError>)
    requires
        snapshot.wf(),
    ensures
        forall|m: RecordModel| #[trigger]
            snapshot.shows(m) ==> match r {
                Ok(_) => foreign_key_failures == 0 && records_counted(*found, m),
                Err(e) => (foreign_key_failures != 0 || !records_counted(*found, m)) && e@
                    == corrupt_index("rebuilt projection failed canonical validation"@),
            },
{
    let expected = snapshot.expected_counts();
    if foreign_key_failures != 0 || *found != expected {
        return Err(corrupt("Index Store", "rebuilt projection failed canonical validation"));
    }
    Ok(())
}

/// The name of a file beside a database that plays a role for it.
pub open spec fn sibling_of(stem: Seq<char>, extension: Option<Seq<char>>, role: Seq<char>) -> Seq<
    char,
> {
    match extension {
        Some(extension) => stem + "."@ + role + "."@ + extension,
        None => stem + "."@ + role,
    }
}

/// The name of a file beside a database that plays a role for it.
pub fn sibling_with_role(stem: &str, extension: Option<&str>, role: &str) -> (r: String)
    ensures
        r@ == sibling_of(stem@, optional_str(extension), role@),
{
    match extension {
        Some(extension) => join5(stem, ".", role, ".", extension),
        None => join3(stem, ".", role),
    }
}

/// The rows of an Index as they were read.
pub struct IndexRows {
    pub applied_revision: u64,
    pub nodes: Vec<(NodeId, IndexedNodeRow)>,
    pub relationships: Vec<(Relationship, IndexedRelationshipRow)>,
    pub property_definitions: Vec<(String, PropertyDefinitionRow)>,
    pub relationship_definitions: Vec<(String, RelationshipDefinitionRow)>,
    pub documents: Vec<(String, SearchDocumentInput)>,
    pub derived: Vec<(DerivedKey, DerivedRow)>,
}

impl IndexRows {
    /// The invariant: sound rows, and a revision that a database can hold.
    pub open spec fn wf(&self) -> bool {
        &&& forall|i: int| 0 <= i < self.nodes@.len() ==> (#[trigger] self.nodes@[i]).1.sound()
        &&& self.applied_revision <= i64::MAX
    }

    /// The Index that these rows are.
    pub open spec fn model(&self) -> IndexModel {
        IndexModel {
            applied_revision: self.applied_revision,
            nodes: rows_read::<NodeId, IndexedNodeRow>(self.nodes@, self.nodes@.len()),
            relationships: rows_read::<Relationship, IndexedRelationshipRow>(
                self.relationships@,
                self.relationships@.len(),
            ),
            property_definitions: rows_read::<String, PropertyDefinitionRow>(
                self.property_definitions@,
                self.property_definitions@.len(),
            ),
            relationship_definitions: rows_read::<String, RelationshipDefinitionRow>(
                self.relationship_definitions@,
                self.relationship_definitions@.len(),
            ),
            documents: rows_read::<String, SearchDocumentInput>(
                self.documents@,
                self.documents@.len(),
            ),
            derived: rows_read::<DerivedKey, DerivedRow>(self.derived@, self.derived@.len()),
        }
    }
}

/// What was found where the Index should be.
pub enum IndexFile {
    Missing,
    /// A file that cannot be read as an Index.
    Unusable,
    Rows(IndexRows),
}

impl IndexStore {
    /// The Index that rows are which were read.
    pub fn load(rows: &IndexRows) -> (r: IndexStore)
        requires
            rows.wf(),
        ensures
            r.wf(),
            r@ == rows.model(),
            r.failure() is None,
    {
        let r = IndexStore {
            applied_revision: rows.applied_revision,
            nodes: table_of(&rows.nodes),
            relationships: table_of(&rows.relationships),
            property_definitions: table_of(&rows.property_definitions),
            relationship_definitions: table_of(&rows.relationship_definitions),
            documents: table_of(&rows.documents),
            derived: table_of(&rows.derived),
            failure_point: None,
        };
        proof {
            assert(r@ =~= rows.model());
        }
        r
    }

    fn build_anew(records: &RecordStore, reason: IndexRebuildReason) -> (r: Result<
        (IndexStore, ReconcileOutcome),
        CoreError,
    >)
        requires
            records.wf(),
        ensures
            match r {
                Ok((store, outcome)) => {
                    &&& store.wf()
                    &&& store.failure() is None
                    &&& rebuild_fault(records@, None) is None
                    &&& store@ == rebuilt_index(records@)
                    &&& outcome == (ReconcileOutcome::Rebuilt {
                        revision: records@.revision,
                        reason,
                    })
                },
                Err(e) => rebuild_fault(records@, None) == Some(e@),
            },
    {
        let mut store = IndexStore::new();
        match store.rebuild(records, reason) {
            Ok(outcome) => Ok((store, outcome)),
            Err(e) => Err(e),
        }
    }

    /// The Index that a Record Store is opened with: the one that is there, brought up to date, or
    /// a new one where there is none or none that can be used.
    pub fn open_for_core(found: &IndexFile, records: &RecordStore) -> (r: Result<
        (IndexStore, ReconcileOutcome),
        CoreError,
    >)
        requires
            records.wf(),
            *found is Rows ==> found->Rows_0.wf(),
        ensures
            match r {
                Ok((store, outcome)) => {
                    &&& store.wf()
                    &&& store.failure() is None
                    &&& match *found {
                        IndexFile::Rows(rows) => {
                            &&& reconcile_fault(rows.model(), records@, None) is None
                            &&& store@ == reconciled(rows.model(), records@)
                            &&& outcome == reconcile_outcome(rows.model(), records@)
                        },
                        IndexFile::Missing => {
                            &&& rebuild_fault(records@, None) is None
                            &&& store@ == rebuilt_index(records@)
                            &&& outcome == (ReconcileOutcome::Rebuilt {
                                revision: records@.revision,
                                reason: IndexRebuildReason::Missing,
                            })
                        },
                        IndexFile::Unusable => {
                            &&& rebuild_fault(records@, None) is None
                            &&& store@ == rebuilt_index(records@)
                            &&& outcome == (ReconcileOutcome::Rebuilt {
                                revision: records@.revision,
                                reason: IndexRebuildReason::CorruptOrIncompatible,
                            })
                        },
                    }
                },
                Err(e) => match *found {
                    IndexFile::Rows(rows) => reconcile_fault(rows.model(), records@, None) == Some(
                        e@,
                    ),
                    _ => rebuild_fault(records@, None) == Some(e@),
                },
            },
    {
        match found {
            IndexFile::Missing => IndexStore::build_anew(records, IndexRebuildReason::Missing),
            IndexFile::Unusable => IndexStore::build_anew(
                records,
                IndexRebuildReason::CorruptOrIncompatible,
            ),
            IndexFile::Rows(rows) => {
                let mut store = IndexStore::load(rows);
                match store.reconcile(records) {
                    Ok(outcome) => Ok((store, outcome)),
                    Err(e) => Err(e),
                }
            },
        }
    }
}

/// Whatever is found where the Index should be, opening gives an Index that shows the Record Store
/// exactly, as long as what was found showed an earlier state of it.
pub proof fn law_opening_shows_records(x: IndexModel, h: Seq<RecordModel>)
    requires
        is_history(h),
        x.shows(h[0]),
    ensures
        reconcile_fault(x, h.last(), None) is None,
        reconciled(x, h.last()).shows(h.last()),
        rebuild_fault(h.last(), None) is None,
        rebuilt_index(h.last()).shows(h.last()),
{
    assert(consistent(h[h.len() - 1]));
    law_rebuild_shows_records(h.last());
    if h.len() > 1 {
        law_reconcile_follows_history(x, h);
    }
}

/// The count of Properties is that of all Nodes together: without Nodes it is zero, and one Node more
/// counts as many more as it has Properties.
pub proof fn law_properties_are_counted<R>(
    nodes: Map<NodeId, R>,
    properties: spec_fn(R) -> Map<Seq<char>, PropertyRowView>,
    id: NodeId,
    row: R,
)
    requires
        nodes.dom().finite(),
        !nodes.dom().contains(id),
    ensures
        property_total(Map::<NodeId, R>::empty(), properties) == 0,
        property_total(nodes.insert(id, row), properties) == property_total(nodes, properties)
            + properties(row).dom().len(),
{
    let more = nodes.insert(id, row);
    let s = in_order::<NodeId>(nodes.dom());
    let t = in_order::<NodeId>(more.dom());
    lemma_in_order_lists::<NodeId>(nodes.dom());
    assert(more.dom() =~= nodes.dom().insert(id));
    lemma_in_order_lists::<NodeId>(more.dom());
    let place = lemma_split_exists::<NodeId>(s, id);
    let r = s.insert(place as int, id);
    assert(ascending::<NodeId>(r)) by {
        assert forall|i: int, j: int| 0 <= i < j < r.len() implies NodeId::before(
            #[trigger] r[i],
            #[trigger] r[j],
        ) by {
            let p = if i < place {
                i
            } else {
                i - 1
            };
            let q = if j < place {
                j
            } else {
                j - 1
            };
            if i == place {
                assert(NodeId::before(id, s[q]));
            } else if j == place {
                assert(!NodeId::before(id, s[p]));
                assert(s.contains(s[p]));
                NodeId::before_total(s[p], id);
            } else {
                assert(NodeId::before(s[p], s[q]));
            }
        }
    }
    assert forall|k: NodeId| #[trigger] r.contains(k) <==> more.dom().contains(k) by {
        if r.contains(k) {
            let i = r.index_of(k);
            if i < place {
                assert(s.contains(s[i]));
            } else if i > place {
                assert(s.contains(s[i - 1]));
            }
        }
        if k == id {
            assert(r[place as int] == id);
        } else if more.dom().contains(k) {
            assert(s.contains(k));
            let i = s.index_of(k);
            if i < place {
                assert(r[i] == k);
            } else {
                assert(r[i + 1] == k);
            }
        }
    }
    lemma_lists_in_order::<NodeId>(r, more.dom());
    lemma_count_with_one_more(nodes, properties, id, row, place, more.dom().len());
    assert(Map::<NodeId, R>::empty().dom() =~= Set::empty());
}

proof fn lemma_count_with_one_more<R>(
    nodes: Map<NodeId, R>,
    properties: spec_fn(R) -> Map<Seq<char>, PropertyRowView>,
    id: NodeId,
    row: R,
    place: nat,
    n: nat,
)
    requires
        nodes.dom().finite(),
        !nodes.dom().contains(id),
        place <= in_order::<NodeId>(nodes.dom()).len(),
        in_order::<NodeId>(nodes.insert(id, row).dom()) == in_order::<NodeId>(nodes.dom()).insert(
            place as int,
            id,
        ),
        n <= in_order::<NodeId>(nodes.dom()).len() + 1,
    ensures
        properties_of_first(nodes.insert(id, row), properties, n) == if n <= place {
            properties_of_first(nodes, properties, n)
        } else {
            properties_of_first(nodes, properties, (n - 1) as nat) + properties(row).dom().len()
        },
    decreases n,
{
    let s = in_order::<NodeId>(nodes.dom());
    let more = nodes.insert(id, row);
    let t = in_order::<NodeId>(more.dom());
    lemma_in_order_lists::<NodeId>(nodes.dom());
    if n > 0 {
        lemma_count_with_one_more(nodes, properties, id, row, place, (n - 1) as nat);
        if n <= place {
            assert(t[n - 1] == s[n - 1]);
            assert(s.contains(s[n - 1]));
        } else if n - 1 == place {
            assert(t[n - 1] == id);
        } else {
            assert(t[n - 1] == s[n - 2]);
            assert(s.contains(s[n - 2]));
        }
    }
}

} // verus!
