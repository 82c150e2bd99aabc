//! Which stores are read, which are migrated, and which are refused.
use vstd::prelude::*;
use crate::api::{Relationship, RelationshipView};
use crate::error::{corrupt, CoreError, ErrorView};
use crate::id::NodeId;
use crate::record_store::model::{
    changes_view, clone_changes, keyed, nodes_issued, ChangeRow, ChangeView, NodeRow, Present,
    PropertyDefinitionRow, PropertyRowView, RecordModel, RecordStore, RelationshipDefinitionRow,
    RelationshipRow,
};
use crate::record_store::laws::{change_before, commits, consistent};
use crate::record_store::projection::{pruned, readable, RECORD_CHANGE_RETENTION_REVISIONS};
use crate::record_store::recovery::references_ok;
use crate::recovery::artifacts::RECORD_SCHEMA_VERSION;
use crate::table::{ascending, lemma_next_is_new, Table, TableKey, TableRow};

verus! {

/// A Record Store that cannot be right.
pub open spec fn corrupt_records(reason: Seq<char>) -> ErrorView {
    ErrorView::CorruptStore { store: "Record Store"@, reason }
}

/// A Record Store of another version.
pub open spec fn other_version(found: u32) -> ErrorView {
    ErrorView::UnsupportedSchema {
        store: "Record Store"@,
        found,
        supported: RECORD_SCHEMA_VERSION,
    }
}

/// What a database says of itself when it is opened.
#[derive(Debug, Clone, Copy, PartialEq, Eq, Structural)]
pub struct RecordFacts {
    pub quick_check_ok: bool,
    pub broken_references: i64,
    pub user_version: u32,
    pub meta_rows: u32,
    pub meta_version: u32,
    pub minimum_reader: u32,
    pub current_revision: i64,
    pub unissued_nodes: u32,
}

/// Why a database is refused.
pub open spec fn facts_fault(f: RecordFacts) -> Option<ErrorView> {
    if !f.quick_check_ok {
        Some(corrupt_records("SQLite quick_check did not return ok"@))
    } else if f.broken_references != 0 {
        Some(
            corrupt_records(
                "canonical inconsistency: a surviving fact references identity history that cannot be reconciled"@,
            ),
        )
    } else if f.user_version != RECORD_SCHEMA_VERSION {
        Some(other_version(f.user_version))
    } else if f.meta_rows != 1 || f.meta_version != RECORD_SCHEMA_VERSION || f.minimum_reader
        > RECORD_SCHEMA_VERSION || f.current_revision < 0 {
        Some(
            corrupt_records(
                "store_meta is missing or inconsistent with the supported schema"@,
            ),
        )
    } else if f.unissued_nodes != 0 {
        Some(corrupt_records("one or more Node Records lack an Issued-ID Ledger entry"@))
    } else {
        None
    }
}

/// Refuses a database that is damaged, of another version, or inconsistent.
pub fn validate(facts: &RecordFacts) -> (r: Result<(), CoreError>)
    ensures
        match r {
            Ok(_) => facts_fault(*facts) is None,
            Err(e) => facts_fault(*facts) == Some(e@),
        },
{
    if !facts.quick_check_ok {
        return Err(corrupt("Record Store", "SQLite quick_check did not return ok"));
    }
    if facts.broken_references != 0 {
        return Err(
            corrupt(
                "Record Store",
                "canonical inconsistency: a surviving fact references identity history that cannot be reconciled",
            ),
        );
    }
    if facts.user_version != RECORD_SCHEMA_VERSION {
        return Err(
            CoreError::UnsupportedSchema {
                store: "Record Store",
                found: facts.user_version,
                supported: RECORD_SCHEMA_VERSION,
            },
        );
    }
    if facts.meta_rows != 1 || facts.meta_version != RECORD_SCHEMA_VERSION || facts.minimum_reader
        > RECORD_SCHEMA_VERSION || facts.current_revision < 0 {
        return Err(
            corrupt(
                "Record Store",
                "store_meta is missing or inconsistent with the supported schema",
            ),
        );
    }
    if facts.unissued_nodes != 0 {
        return Err(
            corrupt("Record Store", "one or more Node Records lack an Issued-ID Ledger entry"),
        );
    }
    Ok(())
}

/// What the history of a database says of its revision: the revision it notes, the latest one that
/// any fact names, and the first, the last and the number of those in its journal.
#[derive(Debug, Clone, Copy, PartialEq, Eq, Structural)]
pub struct RevisionFacts {
    pub current: i64,
    pub latest_fact: i64,
    pub first_change: Option<i64>,
    pub last_change: Option<i64>,
    pub changed_revisions: u64,
}

/// Whether the journal runs without a gap to the latest fact.
pub open spec fn proves_latest(f: RevisionFacts) -> bool {
    f.last_change == Some(f.latest_fact) && f.first_change is Some && f.changed_revisions
        == f.latest_fact - f.first_change->0 + 1
}

/// The revision that is to be noted, if it is another one; or that it cannot be known. The noted
/// revision is bookkeeping, not a source of canonical events: only the unbroken surviving journal
/// tail can establish a later one.
pub open spec fn revision_result(f: RevisionFacts) -> Result<Option<i64>, ErrorView> {
    if f.current == f.latest_fact {
        Ok(None)
    } else if f.current < f.latest_fact && proves_latest(f) {
        Ok(Some(f.latest_fact))
    } else if f.latest_fact > f.current || f.last_change is Some {
        Err(
            corrupt_records(
                "canonical inconsistency: committed Record revision cannot be uniquely derived from surviving history"@,
            ),
        )
    } else {
        Ok(None)
    }
}

/// Decides which revision a database stands at.
pub fn reconcile_revision(facts: &RevisionFacts) -> (r: Result<Option<i64>, CoreError>)
    ensures
        match r {
            Ok(change) => revision_result(*facts) == Ok::<Option<i64>, ErrorView>(change),
            Err(e) => revision_result(*facts) == Err::<Option<i64>, ErrorView>(e@),
        },
{
    if facts.current == facts.latest_fact {
        return Ok(None);
    }
    let last_is_latest = match facts.last_change {
        Some(last) => last == facts.latest_fact,
        None => false,
    };
    let unbroken = match facts.first_change {
        Some(first) => facts.changed_revisions as i128 == facts.latest_fact as i128 - first as i128
            + 1,
        None => false,
    };
    if facts.current < facts.latest_fact && last_is_latest && unbroken {
        return Ok(Some(facts.latest_fact));
    }
    if facts.latest_fact > facts.current || facts.last_change.is_some() {
        return Err(
            corrupt(
                "Record Store",
                "canonical inconsistency: committed Record revision cannot be uniquely derived from surviving history",
            ),
        );
    }
    Ok(None)
}

/// What brings a database to the current schema.
#[derive(Debug, Clone, Copy, PartialEq, Eq, Structural)]
pub enum Migration {
    /// It has the current schema.
    Nothing,
    /// It is empty: create everything.
    Create,
    /// It has one of the first three schemas: add what came since.
    AdoptLegacy { source_version: u32 },
    /// It has the schema before the current one.
    FromVersion4,
}

/// What brings a database of this version to the current schema, or why it is refused.
pub open spec fn migration_result(version: u32, violations: i64, tables: u32) -> Result<
    Migration,
    ErrorView,
> {
    if 1 <= version < RECORD_SCHEMA_VERSION && violations != 0 {
        Err(
            corrupt_records(
                "canonical inconsistency: pre-migration references lack resolvable identities"@,
            ),
        )
    } else if version == RECORD_SCHEMA_VERSION {
        Ok(Migration::Nothing)
    } else if version == 0 {
        if tables != 0 {
            Err(corrupt_records("unversioned database already contains tables"@))
        } else {
            Ok(Migration::Create)
        }
    } else if version <= 3 {
        Ok(Migration::AdoptLegacy { source_version: version })
    } else if version == 4 {
        Ok(Migration::FromVersion4)
    } else {
        Err(other_version(version))
    }
}

/// Decides what brings a database to the current schema. A conversion must never silently drop a
/// historical fact whose row no longer leads to an identity.
pub fn plan_migration(version: u32, violations: i64, existing_tables: u32) -> (r: Result<
    Migration,
    CoreError,
>)
    ensures
        match r {
            Ok(migration) => migration_result(version, violations, existing_tables) == Ok::<
                Migration,
                ErrorView,
            >(migration),
            Err(e) => migration_result(version, violations, existing_tables) == Err::<
                Migration,
                ErrorView,
            >(e@),
        },
{
    if 1 <= version && version < RECORD_SCHEMA_VERSION && violations != 0 {
        return Err(
            corrupt(
                "Record Store",
                "canonical inconsistency: pre-migration references lack resolvable identities",
            ),
        );
    }
    if version == RECORD_SCHEMA_VERSION {
        Ok(Migration::Nothing)
    } else if version == 0 {
        if existing_tables != 0 {
            Err(corrupt("Record Store", "unversioned database already contains tables"))
        } else {
            Ok(Migration::Create)
        }
    } else if version <= 3 {
        Ok(Migration::AdoptLegacy { source_version: version })
    } else if version == 4 {
        Ok(Migration::FromVersion4)
    } else {
        Err(
            CoreError::UnsupportedSchema {
                store: "Record Store",
                found: version,
                supported: RECORD_SCHEMA_VERSION,
            },
        )
    }
}

/// Refuses a migration whose source does not say of itself what its version says.
pub fn check_migrated(migration: Migration, updated_rows: usize) -> (r: Result<(), CoreError>)
    ensures
        match r {
            Ok(_) => !(migration is AdoptLegacy || migration is FromVersion4) || updated_rows == 1,
            Err(e) => updated_rows != 1 && match migration {
                Migration::AdoptLegacy { .. } => e@ == corrupt_records(
                    "legacy store metadata is inconsistent with its schema version"@,
                ),
                Migration::FromVersion4 => e@ == corrupt_records(
                    "v4 metadata is inconsistent with its schema version"@,
                ),
                _ => false,
            },
        },
{
    if updated_rows != 1 {
        match migration {
            Migration::AdoptLegacy { .. } => {
                return Err(
                    corrupt(
                        "Record Store",
                        "legacy store metadata is inconsistent with its schema version",
                    ),
                );
            },
            Migration::FromVersion4 => {
                return Err(
                    corrupt("Record Store", "v4 metadata is inconsistent with its schema version"),
                );
            },
            _ => {},
        }
    }
    Ok(())
}

/// What a database says of a store whose creation it no longer dates.
pub open spec fn provenance_note(has_created_at: bool) -> Option<Seq<char>> {
    if has_created_at {
        None
    } else {
        Some("Store creation provenance unavailable: created_at column is missing"@)
    }
}

/// What is said of a store whose creation is no longer dated; it is still readable.
pub fn degraded_reason(has_created_at: bool) -> (r: Option<String>)
    ensures
        crate::api::optional_text(r) == provenance_note(has_created_at),
{
    if has_created_at {
        None
    } else {
        Some("Store creation provenance unavailable: created_at column is missing".to_owned())
    }
}

/// The rows of a table, read one after the other.
pub open spec fn rows_read<K: TableKey, V: TableRow>(rows: Seq<(K, V)>, n: nat) -> Map<K::V, V::V>
    decreases n,
{
    if n == 0 || n > rows.len() {
        Map::empty()
    } else {
        rows_read::<K, V>(rows, (n - 1) as nat).insert(rows[n - 1].0@, rows[n - 1].1@)
    }
}

/// Makes a table of rows that were read.
pub fn table_of<K: TableKey, V: TableRow>(rows: &Vec<(K, V)>) -> (r: Table<K, V>)
    requires
        forall|i: int| 0 <= i < rows@.len() ==> (#[trigger] rows@[i]).1.sound(),
    ensures
        r.wf(),
        r@ == rows_read::<K, V>(rows@, rows@.len()),
{
    let mut r: Table<K, V> = Table::new();
    let mut i: usize = 0;
    while i < rows.len()
        invariant
            r.wf(),
            i <= rows@.len(),
            forall|j: int| 0 <= j < rows@.len() ==> (#[trigger] rows@[j]).1.sound(),
            r@ == rows_read::<K, V>(rows@, i as nat),
        decreases rows@.len() - i,
    {
        let row = &rows[i];
        r.insert(row.0.copy_key(), row.1.copy_row());
        i = i + 1;
    }
    r
}

proof fn lemma_rows_read<K: TableKey, V: TableRow>(
    rows: Seq<(K, V)>,
    keys: Seq<K::V>,
    m: Map<K::V, V::V>,
    n: nat,
)
    requires
        ascending::<K>(keys),
        rows.len() == keys.len(),
        n <= keys.len(),
        forall|j: int|
            0 <= j < keys.len() ==> (#[trigger] rows[j]).0@ == keys[j] && rows[j].1@ == m[keys[j]],
    ensures
        forall|k: K::V| #[trigger]
            rows_read::<K, V>(rows, n).dom().contains(k) <==> keys.subrange(0, n as int).contains(
                k,
            ),
        forall|k: K::V| #[trigger]
            rows_read::<K, V>(rows, n).dom().contains(k) ==> rows_read::<K, V>(rows, n)[k] == m[k],
    decreases n,
{
    if n > 0 {
        lemma_rows_read::<K, V>(rows, keys, m, (n - 1) as nat);
        lemma_next_is_new::<K>(keys, n - 1);
        let was = rows_read::<K, V>(rows, (n - 1) as nat);
        let now = rows_read::<K, V>(rows, n);
        let last = keys[n - 1];
        assert(rows[n - 1].0@ == last && rows[n - 1].1@ == m[last]);
        assert(now == was.insert(last, m[last]));
        assert(keys.subrange(0, n - 1 + 1) == keys.subrange(0, n as int));
        assert forall|k: K::V| #[trigger] now.dom().contains(k) <==> keys.subrange(
            0,
            n as int,
        ).contains(k) by {
            assert(was.dom().contains(k) <==> keys.subrange(0, n - 1).contains(k));
        }
        assert forall|k: K::V| #[trigger] now.dom().contains(k) implies now[k] == m[k] by {
            if k != last {
                assert(was.dom().contains(k));
            }
        }
    } else {
        assert(keys.subrange(0, 0).len() == 0);
    }
}

/// The rows of a table, one after the other.
pub fn rows_of<K: TableKey, V: TableRow>(table: &Table<K, V>) -> (r: Vec<(K, V)>)
    requires
        table.wf(),
    ensures
        rows_read::<K, V>(r@, r@.len()) == table@,
        forall|i: int|
            0 <= i < r@.len() ==> (#[trigger] r@[i]).1.sound() && table@.dom().contains(r@[i].0@)
                && r@[i].1@ == table@[r@[i].0@],
{
    let mut r: Vec<(K, V)> = Vec::new();
    let mut i: usize = 0;
    while i < table.len()
        invariant
            table.wf(),
            i <= table.keys().len(),
            r@.len() == i,
            forall|j: int|
                0 <= j < i ==> (#[trigger] r@[j]).0@ == table.keys()[j] && r@[j].1@
                    == table@[table.keys()[j]] && r@[j].1.sound(),
        decreases table.keys().len() - i,
    {
        r.push((table.key_at(i).copy_key(), table.row_at(i).copy_row()));
        i = i + 1;
    }
    proof {
        table.lemma_view();
        let keys = table.keys();
        lemma_rows_read::<K, V>(r@, keys, table@, keys.len());
        assert(keys.subrange(0, keys.len() as int) =~= keys);
        assert(rows_read::<K, V>(r@, r@.len()) =~= table@);
    }
    r
}

/// The rows of a Record Store as they were read.
pub struct RecordRows {
    pub revision: u64,
    pub issued: Vec<(NodeId, Present)>,
    pub nodes: Vec<(NodeId, NodeRow)>,
    pub relationships: Vec<(Relationship, RelationshipRow)>,
    pub property_definitions: Vec<(String, PropertyDefinitionRow)>,
    pub relationship_definitions: Vec<(String, RelationshipDefinitionRow)>,
    pub journal: Vec<ChangeRow>,
}

impl RecordRows {
    /// The invariant: sound rows, every definition under its own key, revisions that a database can
    /// hold, and the journal in order.
    pub open spec fn wf(&self) -> bool {
        &&& forall|i: int| 0 <= i < self.nodes@.len() ==> (#[trigger] self.nodes@[i]).1.sound()
        &&& forall|i: int|
            0 <= i < self.property_definitions@.len() ==> (
            #[trigger] self.property_definitions@[i]).0@
                == self.property_definitions@[i].1@.definition.key
        &&& forall|i: int|
            0 <= i < self.relationship_definitions@.len() ==> (
            #[trigger] self.relationship_definitions@[i]).0@
                == self.relationship_definitions@[i].1@.definition.key
        &&& self.revision <= i64::MAX
        &&& forall|n: u64| #[trigger] names_revision(self.model(), n) ==> n <= i64::MAX
        &&& in_sequence(self.model().journal)
    }

    /// The store that these rows are.
    pub open spec fn model(&self) -> RecordModel {
        RecordModel {
            revision: self.revision,
            issued: rows_read::<NodeId, Present>(self.issued@, self.issued@.len()).dom(),
            nodes: rows_read::<NodeId, NodeRow>(self.nodes@, self.nodes@.len()),
            relationships: rows_read::<Relationship, RelationshipRow>(
                self.relationships@,
                self.relationships@.len(),
            ),
            property_definitions: rows_read::<String, PropertyDefinitionRow>(
                self.property_definitions@,
                self.property_definitions@.len(),
            ),
            relationship_definitions: rows_read::<String, RelationshipDefinitionRow>(
                self.relationship_definitions@,
                self.relationship_definitions@.len(),
            ),
            journal: changes_view(self.journal@),
        }
    }
}

proof fn lemma_keyed_rows(rows: &RecordRows, n: nat, k: nat)
    requires
        rows.wf(),
        n <= rows.property_definitions@.len(),
        k <= rows.relationship_definitions@.len(),
    ensures
        keyed(
            rows_read::<String, PropertyDefinitionRow>(rows.property_definitions@, n),
            rows_read::<String, RelationshipDefinitionRow>(rows.relationship_definitions@, k),
        ),
    decreases n + k,
{
    if n > 0 {
        lemma_keyed_rows(rows, (n - 1) as nat, k);
        assert(rows.property_definitions@[n - 1].0@
            == rows.property_definitions@[n - 1].1@.definition.key);
    } else if k > 0 {
        lemma_keyed_rows(rows, n, (k - 1) as nat);
        assert(rows.relationship_definitions@[k - 1].0@
            == rows.relationship_definitions@[k - 1].1@.definition.key);
    }
}

/// Whether the entries of a journal stand by revision.
pub open spec fn in_sequence(journal: Seq<ChangeView>) -> bool {
    forall|i: int, j: int|
        0 <= i < j < journal.len() ==> (#[trigger] journal[i]).revision <= (
        #[trigger] journal[j]).revision
}

/// The revisions of the entries of a journal.
pub open spec fn journal_revisions(journal: Seq<ChangeView>) -> Seq<u64> {
    journal.map_values(|c: ChangeView| c.revision)
}

/// Whether a Node, or a Property of one, was changed at a revision.
pub open spec fn node_names(m: RecordModel, id: NodeId, n: u64) -> bool {
    m.nodes.dom().contains(id) && (m.nodes[id].modified_revision == n || exists|k: Seq<char>|
        property_names(m.nodes[id].properties, k, n))
}

/// Whether a Property was changed at a revision.
pub open spec fn property_names(
    properties: Map<Seq<char>, PropertyRowView>,
    key: Seq<char>,
    n: u64,
) -> bool {
    properties.dom().contains(key) && properties[key].modified_revision == n
}

/// Whether a Relationship was changed at a revision.
pub open spec fn relationship_names(m: RecordModel, r: RelationshipView, n: u64) -> bool {
    m.relationships.dom().contains(r) && m.relationships[r].modified_revision == n
}

/// Whether a Property definition was changed at a revision.
pub open spec fn property_definition_names(m: RecordModel, key: Seq<char>, n: u64) -> bool {
    m.property_definitions.dom().contains(key) && m.property_definitions[key].modified_revision == n
}

/// Whether a Relationship definition was changed at a revision.
pub open spec fn relationship_definition_names(m: RecordModel, key: Seq<char>, n: u64) -> bool {
    m.relationship_definitions.dom().contains(key)
        && m.relationship_definitions[key].modified_revision == n
}

/// Whether an entry of the journal is of a revision.
pub open spec fn change_names(m: RecordModel, i: int, n: u64) -> bool {
    0 <= i < m.journal.len() && m.journal[i].revision == n
}

/// Whether a fact that survives, or an entry of the journal, is of a revision.
pub open spec fn names_revision(m: RecordModel, n: u64) -> bool {
    ||| exists|id: NodeId| node_names(m, id, n)
    ||| exists|r: RelationshipView| relationship_names(m, r, n)
    ||| exists|k: Seq<char>| property_definition_names(m, k, n)
    ||| exists|k: Seq<char>| relationship_definition_names(m, k, n)
    ||| exists|i: int| change_names(m, i, n)
}

/// Whether no surviving fact is of a later revision, and one is of this, unless there is none.
pub open spec fn is_latest(m: RecordModel, latest: u64) -> bool {
    &&& forall|n: u64| #[trigger] names_revision(m, n) ==> n <= latest
    &&& latest == 0 || names_revision(m, latest)
}

/// Whether this is what a store says of its revision.
pub open spec fn tells(m: RecordModel, f: RevisionFacts) -> bool {
    let revisions = journal_revisions(m.journal);
    &&& f.current == m.revision
    &&& 0 <= f.latest_fact
    &&& is_latest(m, f.latest_fact as u64)
    &&& f.changed_revisions == revisions.to_set().len()
    &&& if revisions.len() == 0 {
        f.first_change is None && f.last_change is None
    } else {
        f.first_change is Some && f.last_change is Some && f.first_change->0 == revisions[0]
            && f.last_change->0 == revisions.last()
    }
}

/// What a store says of its revision.
pub open spec fn facts_told(m: RecordModel) -> RevisionFacts {
    choose|f: RevisionFacts| tells(m, f)
}

proof fn lemma_facts_told(m: RecordModel, f: RevisionFacts)
    requires
        tells(m, f),
    ensures
        facts_told(m) == f,
{
    let g = facts_told(m);
    assert(tells(m, g));
    assert(g.latest_fact as u64 == f.latest_fact as u64);
    assert(g.first_change == f.first_change);
    assert(g.last_change == f.last_change);
}

/// A store at another revision.
pub open spec fn at_revision(m: RecordModel, change: Option<i64>) -> RecordModel {
    match change {
        Some(n) => RecordModel { revision: n as u64, ..m },
        None => m,
    }
}

/// The store that rows are which were read, or why they are refused.
pub open spec fn loaded(m: RecordModel) -> Result<RecordModel, ErrorView> {
    if !references_ok(m) {
        Err(
            corrupt_records(
                "canonical inconsistency: a surviving fact references identity history that cannot be reconciled"@,
            ),
        )
    } else if !nodes_issued(m) {
        Err(corrupt_records("one or more Node Records lack an Issued-ID Ledger entry"@))
    } else {
        match revision_result(facts_told(m)) {
            Ok(change) => Ok(at_revision(m, change)),
            Err(e) => Err(e),
        }
    }
}

fn later(a: u64, b: u64) -> (r: u64)
    ensures
        r == if a < b {
            b
        } else {
            a
        },
{
    if a < b {
        b
    } else {
        a
    }
}

impl RecordStore {
    /// The rows of the store, of which it can be loaded again.
    pub fn to_rows(&self) -> (r: RecordRows)
        requires
            self.wf(),
        ensures
            r.model() == self@,
            r.wf() == ((forall|n: u64| #[trigger] names_revision(self@, n) ==> n <= i64::MAX)
                && in_sequence(self@.journal)),
    {
        let r = RecordRows {
            revision: self.revision,
            issued: rows_of(&self.issued),
            nodes: rows_of(&self.nodes),
            relationships: rows_of(&self.relationships),
            property_definitions: rows_of(&self.property_definitions),
            relationship_definitions: rows_of(&self.relationship_definitions),
            journal: clone_changes(&self.journal),
        };
        proof {
            assert(r.model() =~= self@);
        }
        r
    }

    /// Whether an ID was ever issued.
    pub fn is_id_issued(&self, id: NodeId) -> (r: bool)
        requires
            self.wf(),
        ensures
            r == self@.issued.contains(id),
    {
        self.issued.contains(&id)
    }

    fn latest_node_revision(&self) -> (latest: u64)
        requires
            self.tables_ok(),
        ensures
            forall|id: NodeId, n: u64| #[trigger] node_names(self@, id, n) ==> n <= latest,
            latest == 0 || exists|id: NodeId| node_names(self@, id, latest),
    {
        let mut latest: u64 = 0;
        let mut i: usize = 0;
        while i < self.nodes.len()
            invariant
                self.tables_ok(),
                i <= self.nodes.keys().len(),
                forall|j: int, n: u64|
                    0 <= j < i && #[trigger] node_names(self@, self.nodes.keys()[j], n) ==> n
                        <= latest,
                latest == 0 || exists|id: NodeId| node_names(self@, id, latest),
            decreases self.nodes.keys().len() - i,
        {
            proof {
                self.nodes.lemma_view();
            }
            let ghost id = self.nodes.keys()[i as int];
            let ghost before = latest;
            let row = self.nodes.row_at(i);
            assert(self@.nodes.dom().contains(id) && self@.nodes[id] == row@);
            latest = later(latest, row.modified_revision);
            assert(node_names(self@, id, row.modified_revision));
            assert(latest == 0 || exists|id: NodeId| node_names(self@, id, latest));
            let properties = &row.properties;
            let mut k: usize = 0;
            while k < properties.len()
                invariant
                    self.tables_ok(),
                    properties.wf(),
                    properties@ == self@.nodes[id].properties,
                    self@.nodes.dom().contains(id),
                    k <= properties.keys().len(),
                    before <= latest,
                    self@.nodes[id].modified_revision <= latest,
                    forall|j: int, n: u64|
                        0 <= j < k && #[trigger] property_names(
                            properties@,
                            properties.keys()[j],
                            n,
                        ) ==> n <= latest,
                    latest == 0 || exists|id: NodeId| node_names(self@, id, latest),
                decreases properties.keys().len() - k,
            {
                proof {
                    properties.lemma_view();
                }
                let changed: u64 = properties.row_at(k).modified_revision;
                assert(property_names(properties@, properties.keys()[k as int], changed));
                assert(node_names(self@, id, changed));
                latest = later(latest, changed);
                k = k + 1;
            }
            proof {
                properties.lemma_view();
                assert forall|n: u64| #[trigger] node_names(self@, id, n) implies n <= latest by {
                    if self@.nodes[id].modified_revision != n {
                        let key = choose|k: Seq<char>|
                            property_names(self@.nodes[id].properties, k, n);
                        assert(properties.keys().contains(key));
                        let j = properties.keys().index_of(key);
                        assert(property_names(properties@, properties.keys()[j], n));
                    }
                }
            }
            i = i + 1;
        }
        proof {
            self.nodes.lemma_view();
            assert forall|id: NodeId, n: u64| #[trigger] node_names(self@, id, n) implies n
                <= latest by {
                assert(self.nodes.keys().contains(id));
                let j = self.nodes.keys().index_of(id);
                assert(node_names(self@, self.nodes.keys()[j], n));
            }
        }
        latest
    }

    fn latest_relationship_revision(&self) -> (latest: u64)
        requires
            self.tables_ok(),
        ensures
            forall|r: RelationshipView, n: u64| #[trigger]
                relationship_names(self@, r, n) ==> n <= latest,
            latest == 0 || exists|r: RelationshipView| relationship_names(self@, r, latest),
    {
        let mut latest: u64 = 0;
        let mut i: usize = 0;
        while i < self.relationships.len()
            invariant
                self.tables_ok(),
                i <= self.relationships.keys().len(),
                forall|j: int, n: u64|
                    0 <= j < i && #[trigger] relationship_names(
                        self@,
                        self.relationships.keys()[j],
                        n,
                    ) ==> n <= latest,
                latest == 0 || exists|r: RelationshipView| relationship_names(self@, r, latest),
            decreases self.relationships.keys().len() - i,
        {
            proof {
                self.relationships.lemma_view();
            }
            let changed: u64 = self.relationships.row_at(i).modified_revision;
            assert(relationship_names(self@, self.relationships.keys()[i as int], changed));
            latest = later(latest, changed);
            i = i + 1;
        }
        proof {
            self.relationships.lemma_view();
            assert forall|r: RelationshipView, n: u64| #[trigger]
                relationship_names(self@, r, n) implies n <= latest by {
                assert(self.relationships.keys().contains(r));
                let j = self.relationships.keys().index_of(r);
                assert(relationship_names(self@, self.relationships.keys()[j], n));
            }
        }
        latest
    }

    fn latest_definition_revision(&self) -> (latest: u64)
        requires
            self.tables_ok(),
        ensures
            forall|k: Seq<char>, n: u64| #[trigger]
                property_definition_names(self@, k, n) ==> n <= latest,
            forall|k: Seq<char>, n: u64| #[trigger]
                relationship_definition_names(self@, k, n) ==> n <= latest,
            latest == 0 || (exists|k: Seq<char>| property_definition_names(self@, k, latest)) || (
            exists|k: Seq<char>| relationship_definition_names(self@, k, latest)),
    {
        let mut latest: u64 = 0;
        let properties = &self.property_definitions;
        let mut i: usize = 0;
        while i < properties.len()
            invariant
                self.tables_ok(),
                properties == &self.property_definitions,
                i <= properties.keys().len(),
                forall|j: int, n: u64|
                    0 <= j < i && #[trigger] property_definition_names(
                        self@,
                        properties.keys()[j],
                        n,
                    ) ==> n <= latest,
                latest == 0 || exists|k: Seq<char>| property_definition_names(self@, k, latest),
            decreases properties.keys().len() - i,
        {
            proof {
                properties.lemma_view();
            }
            let changed: u64 = properties.row_at(i).modified_revision;
            assert(property_definition_names(self@, properties.keys()[i as int], changed));
            latest = later(latest, changed);
            i = i + 1;
        }
        proof {
            properties.lemma_view();
            assert forall|k: Seq<char>, n: u64| #[trigger]
                property_definition_names(self@, k, n) implies n <= latest by {
                assert(properties.keys().contains(k));
                let j = properties.keys().index_of(k);
                assert(property_definition_names(self@, properties.keys()[j], n));
            }
        }
        let ghost so_far = latest;
        let relationships = &self.relationship_definitions;
        let mut i: usize = 0;
        while i < relationships.len()
            invariant
                self.tables_ok(),
                relationships == &self.relationship_definitions,
                i <= relationships.keys().len(),
                so_far <= latest,
                forall|j: int, n: u64|
                    0 <= j < i && #[trigger] relationship_definition_names(
                        self@,
                        relationships.keys()[j],
                        n,
                    ) ==> n <= latest,
                latest == 0 || (exists|k: Seq<char>|
                    property_definition_names(self@, k, latest)) || (exists|k: Seq<char>|
                    relationship_definition_names(self@, k, latest)),
            decreases relationships.keys().len() - i,
        {
            proof {
                relationships.lemma_view();
            }
            let changed: u64 = relationships.row_at(i).modified_revision;
            assert(relationship_definition_names(self@, relationships.keys()[i as int], changed));
            latest = later(latest, changed);
            i = i + 1;
        }
        proof {
            relationships.lemma_view();
            assert forall|k: Seq<char>, n: u64| #[trigger]
                relationship_definition_names(self@, k, n) implies n <= latest by {
                assert(relationships.keys().contains(k));
                let j = relationships.keys().index_of(k);
                assert(relationship_definition_names(self@, relationships.keys()[j], n));
            }
        }
        latest
    }

    fn changed_revisions(&self) -> (count: usize)
        requires
            in_sequence(self@.journal),
        ensures
            count == journal_revisions(self@.journal).to_set().len(),
            count <= self.journal@.len(),
    {
        let ghost revisions = journal_revisions(self@.journal);
        let mut count: usize = 0;
        let mut i: usize = 0;
        proof {
            assert(revisions.take(0).to_set() =~= Set::empty());
        }
        while i < self.journal.len()
            invariant
                in_sequence(self@.journal),
                revisions == journal_revisions(self@.journal),
                i <= self.journal@.len(),
                count <= i,
                revisions.len() == self.journal@.len(),
                revisions.take(i as int).to_set().finite(),
                count == revisions.take(i as int).to_set().len(),
            decreases self.journal@.len() - i,
        {
            let ghost seen = revisions.take(i as int);
            let ghost more = revisions.take(i + 1);
            proof {
                assert(forall|k: int| 0 <= k < revisions.len() ==> revisions[k] == self@.journal[k].revision);
                assert forall|n: u64| more.to_set().contains(n) <==> seen.to_set().insert(
                    revisions[i as int],
                ).contains(n) by {
                    if more.to_set().contains(n) {
                        let k = choose|k: int| 0 <= k < more.len() && more[k] == n;
                        if k < i {
                            assert(seen[k] == n);
                        }
                    }
                    if seen.to_set().contains(n) {
                        let k = choose|k: int| 0 <= k < seen.len() && seen[k] == n;
                        assert(more[k] == n);
                    }
                    assert(more[i as int] == revisions[i as int]);
                }
                assert(more.to_set() =~= seen.to_set().insert(revisions[i as int]));
            }
            if i == 0 || self.journal[i].revision != self.journal[i - 1].revision {
                proof {
                    if seen.to_set().contains(revisions[i as int]) {
                        let k = choose|k: int|
                            0 <= k < seen.len() && seen[k] == revisions[i as int];
                        assert(self@.journal[k].revision == self@.journal[i as int].revision);
                        if k < i - 1 {
                            assert(self@.journal[k].revision <= self@.journal[i - 1].revision);
                        }
                        assert(self@.journal[i - 1].revision <= self@.journal[i as int].revision);
                        assert(false);
                    }
                }
                count = count + 1;
            } else {
                proof {
                    assert(seen[i - 1] == revisions[i as int]);
                    assert(more.to_set() =~= seen.to_set());
                }
            }
            i = i + 1;
        }
        proof {
            assert(revisions.take(i as int) =~= revisions);
        }
        count
    }

    fn latest_fact(&self) -> (latest: u64)
        requires
            self.tables_ok(),
            in_sequence(self@.journal),
        ensures
            is_latest(self@, latest),
    {
        let nodes: u64 = self.latest_node_revision();
        let relationships: u64 = self.latest_relationship_revision();
        let definitions: u64 = self.latest_definition_revision();
        let mut latest: u64 = later(later(nodes, relationships), definitions);
        if self.journal.len() > 0 {
            let last: usize = self.journal.len() - 1;
            let changed: u64 = self.journal[last].revision;
            proof {
                assert(change_names(self@, last as int, changed));
                assert forall|i: int, n: u64| #[trigger] change_names(self@, i, n) implies n
                    <= changed by {
                    if i < last {
                        assert(self@.journal[i].revision <= self@.journal[last as int].revision);
                    }
                }
            }
            latest = later(latest, changed);
        }
        proof {
            assert forall|n: u64| #[trigger] names_revision(self@, n) implies n <= latest by {}
        }
        latest
    }

    /// What a store says of its revision.
    fn revision_facts(&self) -> (r: RevisionFacts)
        requires
            self.tables_ok(),
            in_sequence(self@.journal),
            forall|n: u64| #[trigger] names_revision(self@, n) ==> n <= i64::MAX,
        ensures
            tells(self@, r),
    {
        let latest: u64 = self.latest_fact();
        let count: usize = self.changed_revisions();
        let length: usize = self.journal.len();
        if length == 0 {
            RevisionFacts {
                current: self.revision as i64,
                latest_fact: latest as i64,
                first_change: None,
                last_change: None,
                changed_revisions: 0,
            }
        } else {
            proof {
                assert(change_names(self@, 0, self@.journal[0].revision));
                assert(change_names(self@, length - 1, self@.journal[length - 1].revision));
                assert(names_revision(self@, self@.journal[0].revision));
                assert(names_revision(self@, self@.journal[length - 1].revision));
            }
            RevisionFacts {
                current: self.revision as i64,
                latest_fact: latest as i64,
                first_change: Some(self.journal[0].revision as i64),
                last_change: Some(self.journal[length - 1].revision as i64),
                changed_revisions: count as u64,
            }
        }
    }

    fn all_nodes_issued(&self) -> (r: bool)
        requires
            self.tables_ok(),
        ensures
            r == nodes_issued(self@),
    {
        let nodes = &self.nodes;
        let mut i: usize = 0;
        while i < nodes.len()
            invariant
                self.tables_ok(),
                nodes == &self.nodes,
                i <= nodes.keys().len(),
                forall|j: int| 0 <= j < i ==> self@.issued.contains(#[trigger] nodes.keys()[j]),
            decreases nodes.keys().len() - i,
        {
            proof {
                nodes.lemma_view();
            }
            if !self.issued.contains(nodes.key_at(i)) {
                proof {
                    assert(self@.nodes.dom().contains(nodes.keys()[i as int]));
                }
                return false;
            }
            i = i + 1;
        }
        proof {
            nodes.lemma_view();
            assert forall|id: NodeId| #[trigger]
                self@.nodes.dom().contains(id) implies self@.issued.contains(id) by {
                assert(nodes.keys().contains(id));
                let j = nodes.keys().index_of(id);
                assert(nodes.keys()[j] == id);
            }
        }
        true
    }

    /// The store that rows are which were read, at the revision that its history establishes; or
    /// why they cannot be those of a store.
    pub fn load(rows: &RecordRows) -> (r: Result<RecordStore, CoreError>)
        requires
            rows.wf(),
        ensures
            match r {
                Ok(store) => store.wf() && loaded(rows.model()) == Ok::<RecordModel, ErrorView>(
                    store@,
                ),
                Err(e) => loaded(rows.model()) == Err::<RecordModel, ErrorView>(e@),
            },
    {
        proof {
            lemma_keyed_rows(
                rows,
                rows.property_definitions@.len(),
                rows.relationship_definitions@.len(),
            );
        }
        let mut store = RecordStore {
            revision: rows.revision,
            issued: table_of(&rows.issued),
            nodes: table_of(&rows.nodes),
            relationships: table_of(&rows.relationships),
            property_definitions: table_of(&rows.property_definitions),
            relationship_definitions: table_of(&rows.relationship_definitions),
            journal: clone_changes(&rows.journal),
        };
        let ghost m = rows.model();
        proof {
            assert(store@ =~= m);
        }
        if !store.references_are_ok() {
            return Err(
                corrupt(
                    "Record Store",
                    "canonical inconsistency: a surviving fact references identity history that cannot be reconciled",
                ),
            );
        }
        if !store.all_nodes_issued() {
            return Err(
                corrupt("Record Store", "one or more Node Records lack an Issued-ID Ledger entry"),
            );
        }
        let facts = store.revision_facts();
        proof {
            lemma_facts_told(m, facts);
        }
        match reconcile_revision(&facts)? {
            Some(revision) => {
                store.revision = revision as u64;
                proof {
                    assert(store@ =~= at_revision(m, Some(revision)));
                }
                Ok(store)
            },
            None => Ok(store),
        }
    }
}

/// Whether the journal, where there is one, ends at the revision of the store.
pub open spec fn ends_at_revision(m: RecordModel) -> bool {
    m.journal.len() > 0 ==> m.journal.last().revision == m.revision
}

proof fn lemma_latest_exists(m: RecordModel, bound: u64) -> (latest: u64)
    requires
        forall|n: u64| #[trigger] names_revision(m, n) ==> n <= bound,
    ensures
        is_latest(m, latest),
        latest <= bound,
    decreases bound,
{
    if bound == 0 || names_revision(m, bound) {
        bound
    } else {
        lemma_latest_exists(m, (bound - 1) as u64)
    }
}

proof fn lemma_facts_are_past(m: RecordModel)
    requires
        consistent(m),
    ensures
        forall|n: u64| #[trigger] names_revision(m, n) ==> n <= m.revision,
{
    assert forall|n: u64| #[trigger] names_revision(m, n) implies n <= m.revision by {
        if exists|id: NodeId| node_names(m, id, n) {
            let id = choose|id: NodeId| node_names(m, id, n);
            assert(m.nodes.dom().contains(id));
            if m.nodes[id].modified_revision != n {
                let k = choose|k: Seq<char>| property_names(m.nodes[id].properties, k, n);
                assert(m.nodes[id].properties.dom().contains(k));
            }
        } else if exists|r: RelationshipView| relationship_names(m, r, n) {
            let r = choose|r: RelationshipView| relationship_names(m, r, n);
            assert(m.relationships.dom().contains(r));
        } else if exists|k: Seq<char>| property_definition_names(m, k, n) {
            let k = choose|k: Seq<char>| property_definition_names(m, k, n);
            assert(m.property_definitions.dom().contains(k));
        } else if exists|k: Seq<char>| relationship_definition_names(m, k, n) {
            let k = choose|k: Seq<char>| relationship_definition_names(m, k, n);
            assert(m.relationship_definitions.dom().contains(k));
        }
    }
}

/// A store that operations made is the same when its rows are read back.
pub proof fn law_reopening_keeps_the_store(m: RecordModel)
    requires
        consistent(m),
        ends_at_revision(m),
        m.journal.len() <= u64::MAX,
    ensures
        loaded(m) == Ok::<RecordModel, ErrorView>(m),
{
    lemma_facts_are_past(m);
    let latest = lemma_latest_exists(m, m.revision);
    let revisions = journal_revisions(m.journal);
    revisions.lemma_cardinality_of_set();
    let f = RevisionFacts {
        current: m.revision as i64,
        latest_fact: latest as i64,
        first_change: if revisions.len() == 0 {
            None
        } else {
            Some(revisions[0] as i64)
        },
        last_change: if revisions.len() == 0 {
            None
        } else {
            Some(revisions.last() as i64)
        },
        changed_revisions: revisions.to_set().len() as u64,
    };
    assert(tells(m, f));
    lemma_facts_told(m, f);
    if revisions.len() > 0 {
        assert(change_names(m, m.journal.len() - 1, m.revision));
        assert(names_revision(m, m.revision));
    }
}

/// The rows of a store that operations made are rows that it can be loaded of.
pub proof fn law_rows_are_loadable(m: RecordModel)
    requires
        consistent(m),
    ensures
        forall|n: u64| #[trigger] names_revision(m, n) ==> n <= i64::MAX,
        in_sequence(m.journal),
{
    lemma_facts_are_past(m);
}

/// Every commit leaves a journal that ends at the revision of the store.
pub proof fn law_commit_ends_the_journal(a: RecordModel, b: RecordModel, new: Seq<ChangeView>)
    requires
        commits(a, b, new),
    ensures
        ends_at_revision(b),
{
    assert(b.journal.last() == new.last());
}

proof fn lemma_filter_keeps_order(s: Seq<ChangeView>, keep: spec_fn(ChangeView) -> bool)
    requires
        forall|i: int, j: int|
            0 <= i < j < s.len() ==> change_before(#[trigger] s[i], #[trigger] s[j]),
    ensures
        forall|i: int, j: int|
            0 <= i < j < s.filter(keep).len() ==> change_before(
                #[trigger] s.filter(keep)[i],
                #[trigger] s.filter(keep)[j],
            ),
        forall|i: int| 0 <= i < s.filter(keep).len() ==> s.contains(#[trigger] s.filter(keep)[i]),
    decreases s.len(),
{
    reveal(Seq::filter);
    if s.len() > 0 {
        let rest = s.drop_last();
        let kept = rest.filter(keep);
        lemma_filter_keeps_order(rest, keep);
        assert forall|i: int| 0 <= i < s.filter(keep).len() implies s.contains(
            #[trigger] s.filter(keep)[i],
        ) by {
            if i < kept.len() {
                assert(rest.contains(kept[i]));
                let k = rest.index_of(kept[i]);
                assert(s[k] == kept[i]);
            } else {
                assert(s[s.len() - 1] == s.filter(keep)[i]);
            }
        }
        assert forall|i: int, j: int|
            0 <= i < j < s.filter(keep).len() implies change_before(
            #[trigger] s.filter(keep)[i],
            #[trigger] s.filter(keep)[j],
        ) by {
            assert(rest.contains(kept[i]));
            let k = rest.index_of(kept[i]);
            assert(s[k] == kept[i]);
            if j == kept.len() {
                assert(change_before(s[k], s[s.len() - 1]));
            }
        }
    }
}

/// Pruning keeps a store consistent, and leaves the end of its journal as it is.
pub proof fn law_prune_keeps_the_end(m: RecordModel)
    requires
        consistent(m),
        ends_at_revision(m),
    ensures
        consistent(pruned(m)),
        ends_at_revision(pruned(m)),
{
    if m.revision > RECORD_CHANGE_RETENTION_REVISIONS {
        let first_to_keep = (m.revision - RECORD_CHANGE_RETENTION_REVISIONS + 1) as u64;
        let keep = |c: ChangeView| c.revision >= first_to_keep;
        let kept = m.journal.filter(keep);
        lemma_filter_keeps_order(m.journal, keep);
        assert forall|i: int| 0 <= i < kept.len() implies 0 < (#[trigger] kept[i]).revision
            <= m.revision && readable(kept[i]) by {
            assert(m.journal.contains(kept[i]));
            let k = m.journal.index_of(kept[i]);
            assert(m.journal[k] == kept[i]);
        }
        reveal(Seq::filter);
    }
}

} // verus!
