//! Which databases are opened, told of what was found in them.
use vstd::prelude::*;
use crate::api::RelationshipView;
use crate::error::ErrorView;
use crate::id::NodeId;
use crate::index::schema::{index_facts_fault, index_migration_result, IndexFacts, IndexMigration};
use crate::record_store::model::RecordModel;
use crate::record_store::schema::{
    change_names, facts_fault, facts_told, loaded, migration_result, names_revision, node_names,
    property_definition_names, property_names, provenance_note, relationship_definition_names,
    relationship_names, revision_result, rows_read, tells, Migration, RecordFacts, RevisionFacts,
};
use crate::table::{TableKey, TableRow};

verus! {

/// A Record database is accepted exactly where it is whole, no reference in it is broken, it is of
/// the supported version throughout, its revision is not negative, and every Node has an issued ID. It
/// is of an unsupported version, and not damaged, where it is whole and only says another version.
pub proof fn law_record_databases_are_checked(f: RecordFacts)
    ensures
        facts_fault(f) is None <==> {
            &&& f.quick_check_ok
            &&& f.broken_references == 0
            &&& f.user_version == 5
            &&& f.meta_rows == 1
            &&& f.meta_version == 5
            &&& f.minimum_reader <= 5
            &&& f.current_revision >= 0
            &&& f.unissued_nodes == 0
        },
        facts_fault(f) is Some ==> if f.quick_check_ok && f.broken_references == 0 && f.user_version
            != 5 {
            facts_fault(f)->0 is UnsupportedSchema
        } else {
            facts_fault(f)->0 is CorruptStore
        },
{
}

/// An Index database is accepted exactly where it is whole, of the supported version throughout, and
/// at no negative revision.
pub proof fn law_index_databases_are_checked(f: IndexFacts)
    ensures
        index_facts_fault(f) is None <==> {
            &&& f.quick_check_ok
            &&& f.user_version == 4
            &&& f.meta_rows == 1
            &&& f.meta_version == 4
            &&& f.minimum_reader <= 4
            &&& f.applied_revision >= 0
        },
        index_facts_fault(f) is Some ==> if f.quick_check_ok && f.user_version != 4 {
            index_facts_fault(f)->0 is UnsupportedSchema
        } else {
            index_facts_fault(f)->0 is CorruptStore
        },
{
}

/// An empty database is created, an older one is brought up, the current one stays, and a newer one is
/// unsupported. A database without a version but with tables is none of ours, and an older one with
/// broken references is damaged.
pub proof fn law_databases_are_migrated(version: u32, violations: i64, tables: u32)
    ensures
        ({
            let r = migration_result(version, violations, tables);
            &&& version == 5 ==> r == Ok::<Migration, ErrorView>(Migration::Nothing)
            &&& version == 0 ==> if tables == 0 {
                r == Ok::<Migration, ErrorView>(Migration::Create)
            } else {
                r is Err && r->Err_0 is CorruptStore
            }
            &&& 1 <= version <= 4 && violations != 0 ==> r is Err && r->Err_0 is CorruptStore
            &&& 1 <= version <= 3 && violations == 0 ==> r == Ok::<Migration, ErrorView>(
                Migration::AdoptLegacy { source_version: version },
            )
            &&& version == 4 && violations == 0 ==> r == Ok::<Migration, ErrorView>(
                Migration::FromVersion4,
            )
            &&& version > 5 ==> r is Err && r->Err_0 is UnsupportedSchema
        }),
        ({
            let r = index_migration_result(version, tables);
            &&& version == 4 ==> r == Ok::<IndexMigration, ErrorView>(IndexMigration::Nothing)
            &&& version == 0 ==> if tables == 0 {
                r == Ok::<IndexMigration, ErrorView>(IndexMigration::Create)
            } else {
                r is Err && r->Err_0 is CorruptStore
            }
            &&& 1 <= version <= 3 ==> r == Ok::<IndexMigration, ErrorView>(
                IndexMigration::AddAfter { version },
            )
            &&& version > 4 ==> r is Err && r->Err_0 is UnsupportedSchema
        }),
{
}

/// The revision of a store stays where it is that of its latest fact, or where no fact is later and
/// the journal is empty. Where facts are later, it becomes theirs exactly where the journal has every
/// revision from its first up to that one; else the store is damaged.
pub proof fn law_revisions_are_derived(f: RevisionFacts)
    ensures
        ({
            let r = revision_result(f);
            let whole = f.first_change is Some && f.last_change == Some(f.latest_fact)
                && f.changed_revisions == f.latest_fact - f.first_change->0 + 1;
            &&& f.current == f.latest_fact ==> r == Ok::<Option<i64>, ErrorView>(None)
            &&& f.current < f.latest_fact ==> if whole {
                r == Ok::<Option<i64>, ErrorView>(Some(f.latest_fact))
            } else {
                r is Err && r->Err_0 is CorruptStore
            }
            &&& f.current > f.latest_fact ==> if f.last_change is None {
                r == Ok::<Option<i64>, ErrorView>(None)
            } else {
                r is Err && r->Err_0 is CorruptStore
            }
        }),
{
}

/// A store is loaded only where the ends of every Relationship were issued, every replacement is a
/// definition that is there, and every Node has an issued ID; and loading changes nothing of it but,
/// perhaps, its revision. What is not loaded is damaged.
pub proof fn law_loading_keeps_the_facts(m: RecordModel)
    ensures
        match loaded(m) {
            Ok(n) => {
                &&& n.issued == m.issued
                &&& n.nodes == m.nodes
                &&& n.relationships == m.relationships
                &&& n.property_definitions == m.property_definitions
                &&& n.relationship_definitions == m.relationship_definitions
                &&& n.journal == m.journal
                &&& forall|id: NodeId| #[trigger] m.nodes.dom().contains(id) ==> m.issued.contains(id)
                &&& forall|r: RelationshipView| #[trigger]
                    m.relationships.dom().contains(r) ==> m.issued.contains(r.source)
                        && m.issued.contains(r.target)
                &&& forall|k: Seq<char>| #[trigger]
                    m.property_definitions.dom().contains(k)
                        && m.property_definitions[k].definition.replacement_key is Some
                        ==> m.property_definitions.dom().contains(
                        m.property_definitions[k].definition.replacement_key->0,
                    )
                &&& forall|k: Seq<char>| #[trigger]
                    m.relationship_definitions.dom().contains(k)
                        && m.relationship_definitions[k].definition.replacement_key is Some
                        ==> m.relationship_definitions.dom().contains(
                        m.relationship_definitions[k].definition.replacement_key->0,
                    )
            },
            Err(e) => e is CorruptStore,
        },
{
}

/// Missing provenance is told exactly where the column is missing.
pub proof fn law_missing_provenance_is_told(has_created_at: bool)
    ensures
        provenance_note(has_created_at) is Some <==> !has_created_at,
{
}

/// A store that was loaded stands at a revision that no fact in it, and no entry of its journal, is
/// later than.
pub proof fn law_loaded_stores_are_up_to_date(m: RecordModel, f: RevisionFacts, n: RecordModel)
    requires
        tells(m, f),
        loaded(m) == Ok::<RecordModel, ErrorView>(n),
    ensures
        forall|id: NodeId| #[trigger]
            m.nodes.dom().contains(id) ==> m.nodes[id].modified_revision <= n.revision,
        forall|id: NodeId, k: Seq<char>|
            m.nodes.dom().contains(id) && #[trigger] m.nodes[id].properties.dom().contains(k)
                ==> m.nodes[id].properties[k].modified_revision <= n.revision,
        forall|r: RelationshipView| #[trigger]
            m.relationships.dom().contains(r) ==> m.relationships[r].modified_revision
                <= n.revision,
        forall|k: Seq<char>| #[trigger]
            m.property_definitions.dom().contains(k) ==> m.property_definitions[k].modified_revision
                <= n.revision,
        forall|k: Seq<char>| #[trigger]
            m.relationship_definitions.dom().contains(k)
                ==> m.relationship_definitions[k].modified_revision <= n.revision,
        forall|i: int|
            0 <= i < m.journal.len() ==> (#[trigger] m.journal[i]).revision <= n.revision,
        n.revision >= m.revision,
{
    let g = facts_told(m);
    assert(tells(m, g));
    let latest = g.latest_fact as u64;
    assert(n.revision >= latest && n.revision >= m.revision);
    assert forall|id: NodeId| #[trigger]
        m.nodes.dom().contains(id) implies m.nodes[id].modified_revision <= n.revision by {
        assert(node_names(m, id, m.nodes[id].modified_revision));
        assert(names_revision(m, m.nodes[id].modified_revision));
    }
    assert forall|id: NodeId, k: Seq<char>|
        m.nodes.dom().contains(id) && #[trigger] m.nodes[id].properties.dom().contains(
            k,
        ) implies m.nodes[id].properties[k].modified_revision <= n.revision by {
        let r = m.nodes[id].properties[k].modified_revision;
        assert(property_names(m.nodes[id].properties, k, r));
        assert(node_names(m, id, r));
        assert(names_revision(m, r));
    }
    assert forall|r: RelationshipView| #[trigger]
        m.relationships.dom().contains(r) implies m.relationships[r].modified_revision
        <= n.revision by {
        assert(relationship_names(m, r, m.relationships[r].modified_revision));
        assert(names_revision(m, m.relationships[r].modified_revision));
    }
    assert forall|k: Seq<char>| #[trigger]
        m.property_definitions.dom().contains(k) implies m.property_definitions[k].modified_revision
        <= n.revision by {
        assert(property_definition_names(m, k, m.property_definitions[k].modified_revision));
        assert(names_revision(m, m.property_definitions[k].modified_revision));
    }
    assert forall|k: Seq<char>| #[trigger]
        m.relationship_definitions.dom().contains(
            k,
        ) implies m.relationship_definitions[k].modified_revision <= n.revision by {
        assert(relationship_definition_names(m, k, m.relationship_definitions[k].modified_revision));
        assert(names_revision(m, m.relationship_definitions[k].modified_revision));
    }
    assert forall|i: int| 0 <= i < m.journal.len() implies (#[trigger] m.journal[i]).revision
        <= n.revision by {
        assert(change_names(m, i, m.journal[i].revision));
        assert(names_revision(m, m.journal[i].revision));
    }
}

/// Rows are read one after the other: one more row stands under its key, and all others as before.
pub proof fn law_rows_are_read_one_by_one<K: TableKey, V: TableRow>(rows: Seq<(K, V)>, row: (K, V))
    ensures
        rows_read::<K, V>(Seq::empty(), 0) == Map::<K::V, V::V>::empty(),
        ({
            let before = rows_read::<K, V>(rows, rows.len());
            let after = rows_read::<K, V>(rows.push(row), rows.len() + 1);
            &&& after.dom() == before.dom().insert(row.0@)
            &&& after[row.0@] == row.1@
            &&& forall|k: K::V| k != row.0@ && before.dom().contains(k) ==> #[trigger] after[k]
                == before[k]
        }),
{
    lemma_rows_alike(rows, row, rows.len());
    assert(rows.push(row)[rows.len() as int] == row);
    let before = rows_read::<K, V>(rows, rows.len());
    let after = rows_read::<K, V>(rows.push(row), rows.len() + 1);
    assert(after.dom() =~= before.dom().insert(row.0@));
}

proof fn lemma_rows_alike<K: TableKey, V: TableRow>(rows: Seq<(K, V)>, row: (K, V), n: nat)
    requires
        n <= rows.len(),
    ensures
        rows_read::<K, V>(rows.push(row), n) == rows_read::<K, V>(rows, n),
    decreases n,
{
    if n > 0 {
        lemma_rows_alike(rows, row, (n - 1) as nat);
        assert(rows.push(row)[n - 1] == rows[n - 1]);
    }
}

} // verus!
