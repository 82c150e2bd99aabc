//! What registering, updating, deprecating and removing definitions makes of a store, told of what
//! was given and of what the store held.
use vstd::prelude::*;
use crate::api::{
    optional_text, NewPropertyDefinition, NewRelationshipDefinition, PropertyDefinitionUpdate,
    RelationshipDefinitionUpdate, RelationshipView,
};
use crate::id::NodeId;
use crate::record_store::definitions::{
    deprecate_property_result, deprecate_relationship_result, deprecated_property,
    deprecated_relationship, is_text, new_property_definition, new_relationship_definition,
    property_definition_missing, property_fact_count, property_replacement_count,
    register_property_result, register_relationship_result, relationship_definition_missing,
    relationship_fact_count, relationship_replacement_count, remove_property_result,
    remove_relationship_result, update_property_result, update_relationship_result,
    updated_property, updated_relationship,
};
use crate::record_store::keys::{key_fault, KeyUse};
use crate::record_store::model::{ChangeKind, RecordModel};
use crate::record_store::reads::lemma_none_or_some;
use crate::text::is_blank;

verus! {

/// Whether the fields of a definition fit: a valid key, and a label and an origin that are not
/// blank.
pub open spec fn fields_fit(key: Seq<char>, label: Seq<char>, origin: Seq<char>) -> bool {
    key_fault(key, KeyUse::Definition) is None && !is_blank(label) && !is_blank(origin)
}

/// An inverse label as it is kept: one without characters is none.
pub open spec fn label_kept(label: Option<String>) -> Option<Seq<char>> {
    if label is Some && label->0@.len() > 0 {
        Some(label->0@)
    } else {
        None
    }
}

/// Whether any Node has a Property of this key.
pub open spec fn facts_use_property(m: RecordModel, key: Seq<char>) -> bool {
    exists|id: NodeId| #[trigger]
        m.nodes.dom().contains(id) && m.nodes[id].properties.dom().contains(key)
}

/// Whether any Relationship has this key.
pub open spec fn facts_use_relationship(m: RecordModel, key: Seq<char>) -> bool {
    exists|r: RelationshipView| #[trigger] m.relationships.dom().contains(r) && r.key == key
}

/// Whether a commit of one change left every Node, every Relationship and every issued ID as it was.
pub open spec fn facts_stayed(m: RecordModel, n: RecordModel) -> bool {
    &&& n.revision == m.revision + 1
    &&& n.nodes == m.nodes
    &&& n.relationships == m.relationships
    &&& n.issued == m.issued
}

/// Whether the journal has grown by one entry on a definition.
pub open spec fn journal_told(
    m: RecordModel,
    n: RecordModel,
    key: Seq<char>,
    kind: ChangeKind,
    replacement: Option<Seq<char>>,
) -> bool {
    let last = n.journal.last();
    &&& n.journal.len() == m.journal.len() + 1
    &&& n.journal.drop_last() == m.journal
    &&& last.revision == n.revision
    &&& last.ordinal == 0
    &&& last.kind == kind
    &&& last.definition_key == Some(key)
    &&& last.replacement_key == replacement
    &&& last.node_id is None
    &&& last.target is None
}

proof fn lemma_facts_use_property(m: RecordModel, key: Seq<char>)
    requires
        m.nodes.dom().finite(),
    ensures
        property_fact_count(m, key) > 0 <==> facts_use_property(m, key),
{
    let a = m.nodes.dom().filter(|x: NodeId| m.nodes[x].properties.dom().contains(key));
    assert(a.finite());
    lemma_none_or_some(a);
    if facts_use_property(m, key) {
        let id = choose|id: NodeId| #[trigger]
            m.nodes.dom().contains(id) && m.nodes[id].properties.dom().contains(key);
        assert(a.contains(id));
    } else {
        assert forall|id: NodeId| !a.contains(id) by {
            if a.contains(id) {
                assert(m.nodes.dom().contains(id));
            }
        }
    }
}

proof fn lemma_facts_use_relationship(m: RecordModel, key: Seq<char>)
    requires
        m.relationships.dom().finite(),
    ensures
        relationship_fact_count(m, key) > 0 <==> facts_use_relationship(m, key),
{
    let a = m.relationships.dom().filter(|x: RelationshipView| x.key == key);
    assert(a.finite());
    lemma_none_or_some(a);
    if facts_use_relationship(m, key) {
        let r = choose|r: RelationshipView| #[trigger]
            m.relationships.dom().contains(r) && r.key == key;
        assert(a.contains(r));
    } else {
        assert forall|r: RelationshipView| !a.contains(r) by {
            if a.contains(r) {
                assert(m.relationships.dom().contains(r));
            }
        }
    }
}

/// Whether one Property definition, and nothing else, was set or changed in a commit of its own.
pub open spec fn one_property_definition_changed(
    m: RecordModel,
    n: RecordModel,
    key: Seq<char>,
    kind: ChangeKind,
    replacement: Option<Seq<char>>,
) -> bool {
    &&& n.property_definitions.dom() == m.property_definitions.dom().insert(key)
    &&& n.property_definitions[key].modified_revision == n.revision
    &&& forall|other: Seq<char>|
        other != key && m.property_definitions.dom().contains(other)
            ==> #[trigger] n.property_definitions[other] == m.property_definitions[other]
    &&& n.relationship_definitions == m.relationship_definitions
    &&& facts_stayed(m, n)
    &&& journal_told(m, n, key, kind, replacement)
}

/// A Property definition is registered exactly where its key is valid, its label and its origin are
/// not blank, and its key has no definition yet. It is then there as it was given: active, without a
/// replacement, at version one.
pub proof fn law_property_definition_is_registered(m: RecordModel, input: NewPropertyDefinition)
    requires
        m.revision < i64::MAX,
    ensures
        ({
            let r = register_property_result(m, new_property_definition(input));
            let fields = fields_fit(input.key@, input.label@, input.origin@);
            &&& r is Ok <==> fields && !m.property_definitions.dom().contains(input.key@)
            &&& fields && r is Err ==> r->Err_0 is AlreadyExists
            &&& match r {
                Ok(n) => {
                    let d = n.property_definitions[input.key@].definition;
                    &&& d.key == input.key@
                    &&& d.label == input.label@
                    &&& d.description == optional_text(input.description)
                    &&& d.expected_value_kind == input.expected_value_kind
                    &&& d.state is Active
                    &&& d.replacement_key is None
                    &&& d.origin == input.origin@
                    &&& d.version == 1
                    &&& one_property_definition_changed(
                        m,
                        n,
                        input.key@,
                        ChangeKind::PropertyDefinitionRegistered,
                        None,
                    )
                },
                Err(_) => true,
            }
        }),
{
    let r = register_property_result(m, new_property_definition(input));
    if r is Ok {
        assert(r->Ok_0.property_definitions.dom() =~= m.property_definitions.dom().insert(input.key@));
        assert(r->Ok_0.journal.drop_last() =~= m.journal);
    }
}

/// A Property definition can be updated exactly where it is there, the new label is not blank,
/// and, while any Node has a Property of its key, its expected kind stays as it was. The definition
/// then has what was given, one version later; its state, its replacement and its origin stay.
pub proof fn law_property_definition_is_updated(
    m: RecordModel,
    key: Seq<char>,
    update: PropertyDefinitionUpdate,
)
    requires
        m.revision < i64::MAX,
        m.nodes.dom().finite(),
        m.property_definitions.dom().contains(key) ==> m.property_definitions[key].definition.version
            < i64::MAX,
    ensures
        ({
            let r = update_property_result(m, key, update);
            let fields = fields_fit(key, update.label@, "existing"@);
            let was = m.property_definitions[key].definition;
            &&& r is Ok <==> fields && m.property_definitions.dom().contains(key) && (update.expected_value_kind == was.expected_value_kind || !facts_use_property(m, key))
            &&& fields && !m.property_definitions.dom().contains(key) ==> r->Err_0
                is DefinitionNotFound
            &&& fields && m.property_definitions.dom().contains(key) && update.expected_value_kind
                != was.expected_value_kind && facts_use_property(m, key) ==> r->Err_0 is Conflict
            &&& match r {
                Ok(n) => {
                    let d = n.property_definitions[key].definition;
                    &&& d.label == update.label@
                    &&& d.description == optional_text(update.description)
                    &&& d.expected_value_kind == update.expected_value_kind
                    &&& d.key == key
                    &&& d.state == was.state
                    &&& d.replacement_key == was.replacement_key
                    &&& d.origin == was.origin
                    &&& d.version == was.version + 1
                    &&& one_property_definition_changed(
                        m,
                        n,
                        key,
                        ChangeKind::PropertyDefinitionUpdated,
                        None,
                    )
                },
                Err(_) => true,
            }
        }),
{
    lemma_facts_use_property(m, key);
    let r = update_property_result(m, key, update);
    if r is Ok {
        assert(r->Ok_0.property_definitions.dom() =~= m.property_definitions.dom().insert(key));
        assert(r->Ok_0.journal.drop_last() =~= m.journal);
    }
}

/// A Property definition can be deprecated exactly where it is there, and its replacement, if it gets
/// one, is another definition that is active. It is then deprecated with that replacement, one version
/// later, and otherwise as it was.
pub proof fn law_property_definition_is_deprecated(
    m: RecordModel,
    key: Seq<char>,
    replacement: Option<Seq<char>>,
)
    requires
        m.revision < i64::MAX,
        m.property_definitions.dom().contains(key) ==> m.property_definitions[key].definition.version
            < i64::MAX,
    ensures
        ({
            let r = deprecate_property_result(m, key, replacement);
            let valid = key_fault(key, KeyUse::Definition) is None;
            let was = m.property_definitions[key].definition;
            let other = replacement->0;
            let fits = replacement is None || (key_fault(other, KeyUse::Definition) is None && other
                != key && m.property_definitions.dom().contains(other)
                && m.property_definitions[other].definition.state is Active);
            &&& r is Ok <==> valid && m.property_definitions.dom().contains(key) && fits
            &&& valid && !m.property_definitions.dom().contains(key) ==> r->Err_0
                is DefinitionNotFound
            &&& valid && m.property_definitions.dom().contains(key) && replacement == Some(key)
                ==> r->Err_0 is Conflict
            &&& match r {
                Ok(n) => {
                    let d = n.property_definitions[key].definition;
                    &&& d.state is Deprecated
                    &&& d.replacement_key == replacement
                    &&& d.version == was.version + 1
                    &&& d.key == key
                    &&& d.label == was.label
                    &&& d.description == was.description
                    &&& d.expected_value_kind == was.expected_value_kind
                    &&& d.origin == was.origin
                    &&& d == deprecated_property(m, key, replacement)
                    &&& one_property_definition_changed(
                        m,
                        n,
                        key,
                        ChangeKind::PropertyDefinitionDeprecated,
                        replacement,
                    )
                },
                Err(_) => true,
            }
        }),
{
    let r = deprecate_property_result(m, key, replacement);
    if r is Ok {
        assert(r->Ok_0.property_definitions.dom() =~= m.property_definitions.dom().insert(key));
        assert(r->Ok_0.journal.drop_last() =~= m.journal);
    }
}

/// A Property definition can be removed exactly where it is there, no fact uses it, and no definition
/// names it as its replacement. It is then gone, and everything else is as it was.
pub proof fn law_property_definition_is_removed(m: RecordModel, key: Seq<char>)
    requires
        m.revision < i64::MAX,
        m.nodes.dom().finite(),
        m.property_definitions.dom().finite(),
    ensures
        ({
            let r = remove_property_result(m, key);
            let there = m.property_definitions.dom().contains(key);
            let used = facts_use_property(m, key) || exists|k: Seq<char>| #[trigger]
                m.property_definitions.dom().contains(k)
                    && m.property_definitions[k].definition.replacement_key == Some(key);
            &&& r is Ok <==> there && !used
            &&& !there ==> r->Err_0 is DefinitionNotFound
            &&& there && used ==> r->Err_0 is Conflict
            &&& match r {
                Ok(n) => {
                    &&& !n.property_definitions.dom().contains(key)
                    &&& forall|other: Seq<char>|
                        other != key && m.property_definitions.dom().contains(other)
                            ==> #[trigger] n.property_definitions.dom().contains(other)
                            && n.property_definitions[other] == m.property_definitions[other]
                    &&& n.property_definitions.dom().subset_of(m.property_definitions.dom())
                    &&& n.relationship_definitions == m.relationship_definitions
                    &&& facts_stayed(m, n)
                    &&& journal_told(m, n, key, ChangeKind::PropertyDefinitionRemoved, None)
                },
                Err(_) => true,
            }
        }),
{
    lemma_facts_use_property(m, key);
    lemma_property_replacements(m, key);
    let r = remove_property_result(m, key);
    if r is Ok {
        assert(r->Ok_0.journal.drop_last() =~= m.journal);
    }
}

/// Whether one Relationship definition, and nothing else, was set or changed in a commit of its own.
pub open spec fn one_relationship_definition_changed(
    m: RecordModel,
    n: RecordModel,
    key: Seq<char>,
    kind: ChangeKind,
    replacement: Option<Seq<char>>,
) -> bool {
    &&& n.relationship_definitions.dom() == m.relationship_definitions.dom().insert(key)
    &&& n.relationship_definitions[key].modified_revision == n.revision
    &&& forall|other: Seq<char>|
        other != key && m.relationship_definitions.dom().contains(other)
            ==> #[trigger] n.relationship_definitions[other] == m.relationship_definitions[other]
    &&& n.property_definitions == m.property_definitions
    &&& facts_stayed(m, n)
    &&& journal_told(m, n, key, kind, replacement)
}

/// A Relationship definition is registered exactly where its key is valid, its label and its origin are
/// not blank, and its key has no definition yet. It is then there as it was given: active, without a
/// replacement, at version one.
pub proof fn law_relationship_definition_is_registered(m: RecordModel, input: NewRelationshipDefinition)
    requires
        m.revision < i64::MAX,
    ensures
        ({
            let r = register_relationship_result(m, new_relationship_definition(input));
            let fields = fields_fit(input.key@, input.forward_label@, input.origin@);
            &&& r is Ok <==> fields && !m.relationship_definitions.dom().contains(input.key@)
            &&& fields && r is Err ==> r->Err_0 is AlreadyExists
            &&& match r {
                Ok(n) => {
                    let d = n.relationship_definitions[input.key@].definition;
                    &&& d.key == input.key@
                    &&& d.forward_label == input.forward_label@
                    &&& d.description == optional_text(input.description)
                    &&& d.inverse_label == label_kept(input.inverse_label)
                    &&& d.state is Active
                    &&& d.replacement_key is None
                    &&& d.origin == input.origin@
                    &&& d.version == 1
                    &&& one_relationship_definition_changed(
                        m,
                        n,
                        input.key@,
                        ChangeKind::RelationshipDefinitionRegistered,
                        None,
                    )
                },
                Err(_) => true,
            }
        }),
{
    let r = register_relationship_result(m, new_relationship_definition(input));
    if r is Ok {
        assert(r->Ok_0.relationship_definitions.dom() =~= m.relationship_definitions.dom().insert(input.key@));
        assert(r->Ok_0.journal.drop_last() =~= m.journal);
    }
}

/// A Relationship definition can be updated exactly where it is there and the new label is not blank.
/// The definition then has what was given, one version later; its state, its replacement and its
/// origin stay.
pub proof fn law_relationship_definition_is_updated(
    m: RecordModel,
    key: Seq<char>,
    update: RelationshipDefinitionUpdate,
)
    requires
        m.revision < i64::MAX,
        m.relationship_definitions.dom().contains(key) ==> m.relationship_definitions[key].definition.version
            < i64::MAX,
    ensures
        ({
            let r = update_relationship_result(m, key, update);
            let fields = fields_fit(key, update.forward_label@, "existing"@);
            let was = m.relationship_definitions[key].definition;
            &&& r is Ok <==> fields && m.relationship_definitions.dom().contains(key)
            &&& fields && !m.relationship_definitions.dom().contains(key) ==> r->Err_0
                is DefinitionNotFound
            &&& match r {
                Ok(n) => {
                    let d = n.relationship_definitions[key].definition;
                    &&& d.forward_label == update.forward_label@
                    &&& d.description == optional_text(update.description)
                    &&& d.inverse_label == label_kept(update.inverse_label)
                    &&& d.key == key
                    &&& d.state == was.state
                    &&& d.replacement_key == was.replacement_key
                    &&& d.origin == was.origin
                    &&& d.version == was.version + 1
                    &&& one_relationship_definition_changed(
                        m,
                        n,
                        key,
                        ChangeKind::RelationshipDefinitionUpdated,
                        None,
                    )
                },
                Err(_) => true,
            }
        }),
{
    let r = update_relationship_result(m, key, update);
    if r is Ok {
        assert(r->Ok_0.relationship_definitions.dom() =~= m.relationship_definitions.dom().insert(key));
        assert(r->Ok_0.journal.drop_last() =~= m.journal);
    }
}

/// A Relationship definition can be deprecated exactly where it is there, and its replacement, if it gets
/// one, is another definition that is active. It is then deprecated with that replacement, one version
/// later, and otherwise as it was.
pub proof fn law_relationship_definition_is_deprecated(
    m: RecordModel,
    key: Seq<char>,
    replacement: Option<Seq<char>>,
)
    requires
        m.revision < i64::MAX,
        m.relationship_definitions.dom().contains(key) ==> m.relationship_definitions[key].definition.version
            < i64::MAX,
    ensures
        ({
            let r = deprecate_relationship_result(m, key, replacement);
            let valid = key_fault(key, KeyUse::Definition) is None;
            let was = m.relationship_definitions[key].definition;
            let other = replacement->0;
            let fits = replacement is None || (key_fault(other, KeyUse::Definition) is None && other
                != key && m.relationship_definitions.dom().contains(other)
                && m.relationship_definitions[other].definition.state is Active);
            &&& r is Ok <==> valid && m.relationship_definitions.dom().contains(key) && fits
            &&& valid && !m.relationship_definitions.dom().contains(key) ==> r->Err_0
                is DefinitionNotFound
            &&& valid && m.relationship_definitions.dom().contains(key) && replacement == Some(key)
                ==> r->Err_0 is Conflict
            &&& match r {
                Ok(n) => {
                    let d = n.relationship_definitions[key].definition;
                    &&& d.state is Deprecated
                    &&& d.replacement_key == replacement
                    &&& d.version == was.version + 1
                    &&& d.key == key
                    &&& d.forward_label == was.forward_label
                    &&& d.description == was.description
                    &&& d.inverse_label == was.inverse_label
                    &&& d.origin == was.origin
                    &&& d == deprecated_relationship(m, key, replacement)
                    &&& one_relationship_definition_changed(
                        m,
                        n,
                        key,
                        ChangeKind::RelationshipDefinitionDeprecated,
                        replacement,
                    )
                },
                Err(_) => true,
            }
        }),
{
    let r = deprecate_relationship_result(m, key, replacement);
    if r is Ok {
        assert(r->Ok_0.relationship_definitions.dom() =~= m.relationship_definitions.dom().insert(key));
        assert(r->Ok_0.journal.drop_last() =~= m.journal);
    }
}

/// A Relationship definition can be removed exactly where it is there, no fact uses it, and no definition
/// names it as its replacement. It is then gone, and everything else is as it was.
pub proof fn law_relationship_definition_is_removed(m: RecordModel, key: Seq<char>)
    requires
        m.revision < i64::MAX,
        m.relationships.dom().finite(),
        m.relationship_definitions.dom().finite(),
    ensures
        ({
            let r = remove_relationship_result(m, key);
            let there = m.relationship_definitions.dom().contains(key);
            let used = facts_use_relationship(m, key) || exists|k: Seq<char>| #[trigger]
                m.relationship_definitions.dom().contains(k)
                    && m.relationship_definitions[k].definition.replacement_key == Some(key);
            &&& r is Ok <==> there && !used
            &&& !there ==> r->Err_0 is DefinitionNotFound
            &&& there && used ==> r->Err_0 is Conflict
            &&& match r {
                Ok(n) => {
                    &&& !n.relationship_definitions.dom().contains(key)
                    &&& forall|other: Seq<char>|
                        other != key && m.relationship_definitions.dom().contains(other)
                            ==> #[trigger] n.relationship_definitions.dom().contains(other)
                            && n.relationship_definitions[other] == m.relationship_definitions[other]
                    &&& n.relationship_definitions.dom().subset_of(m.relationship_definitions.dom())
                    &&& n.property_definitions == m.property_definitions
                    &&& facts_stayed(m, n)
                    &&& journal_told(m, n, key, ChangeKind::RelationshipDefinitionRemoved, None)
                },
                Err(_) => true,
            }
        }),
{
    lemma_facts_use_relationship(m, key);
    lemma_relationship_replacements(m, key);
    let r = remove_relationship_result(m, key);
    if r is Ok {
        assert(r->Ok_0.journal.drop_last() =~= m.journal);
    }
}

proof fn lemma_property_replacements(m: RecordModel, key: Seq<char>)
    requires
        m.property_definitions.dom().finite(),
    ensures
        property_replacement_count(m, key) > 0 <==> exists|k: Seq<char>| #[trigger]
            m.property_definitions.dom().contains(k)
                && m.property_definitions[k].definition.replacement_key == Some(key),
{
    let a = m.property_definitions.dom().filter(
        |k: Seq<char>| is_text(m.property_definitions[k].definition.replacement_key, key),
    );
    assert(a.finite());
    lemma_none_or_some(a);
    if exists|k: Seq<char>| #[trigger]
        m.property_definitions.dom().contains(k)
            && m.property_definitions[k].definition.replacement_key == Some(key) {
        let k = choose|k: Seq<char>| #[trigger]
            m.property_definitions.dom().contains(k)
                && m.property_definitions[k].definition.replacement_key == Some(key);
        assert(a.contains(k));
    } else {
        assert forall|k: Seq<char>| !a.contains(k) by {
            if a.contains(k) {
                assert(m.property_definitions.dom().contains(k));
            }
        }
    }
}

proof fn lemma_relationship_replacements(m: RecordModel, key: Seq<char>)
    requires
        m.relationship_definitions.dom().finite(),
    ensures
        relationship_replacement_count(m, key) > 0 <==> exists|k: Seq<char>| #[trigger]
            m.relationship_definitions.dom().contains(k)
                && m.relationship_definitions[k].definition.replacement_key == Some(key),
{
    let a = m.relationship_definitions.dom().filter(
        |k: Seq<char>| is_text(m.relationship_definitions[k].definition.replacement_key, key),
    );
    assert(a.finite());
    lemma_none_or_some(a);
    if exists|k: Seq<char>| #[trigger]
        m.relationship_definitions.dom().contains(k)
            && m.relationship_definitions[k].definition.replacement_key == Some(key) {
        let k = choose|k: Seq<char>| #[trigger]
            m.relationship_definitions.dom().contains(k)
                && m.relationship_definitions[k].definition.replacement_key == Some(key);
        assert(a.contains(k));
    } else {
        assert forall|k: Seq<char>| !a.contains(k) by {
            if a.contains(k) {
                assert(m.relationship_definitions.dom().contains(k));
            }
        }
    }
}

/// A definition is read exactly where its key is valid and it is there; where it is not there, its key
/// is what was not found.
pub proof fn law_definitions_are_read(m: RecordModel, key: Seq<char>)
    ensures
        property_definition_missing(m, key) is None <==> key_fault(key, KeyUse::Definition) is None
            && m.property_definitions.dom().contains(key),
        relationship_definition_missing(m, key) is None <==> key_fault(key, KeyUse::Definition)
            is None && m.relationship_definitions.dom().contains(key),
        key_fault(key, KeyUse::Definition) is None && !m.property_definitions.dom().contains(key)
            ==> property_definition_missing(m, key)->0 is DefinitionNotFound
            && property_definition_missing(m, key)->0->DefinitionNotFound_0 == key,
        key_fault(key, KeyUse::Definition) is None && !m.relationship_definitions.dom().contains(key)
            ==> relationship_definition_missing(m, key)->0 is DefinitionNotFound
            && relationship_definition_missing(m, key)->0->DefinitionNotFound_0 == key,
{
}

/// What an update answers is what the store holds from then on, but for an empty inverse label, which
/// the store keeps as none.
pub proof fn law_updates_answer_what_is_stored(
    m: RecordModel,
    key: Seq<char>,
    property: PropertyDefinitionUpdate,
    relationship: RelationshipDefinitionUpdate,
)
    ensures
        update_property_result(m, key, property) is Ok ==> update_property_result(
            m,
            key,
            property,
        )->Ok_0.property_definitions[key].definition == updated_property(m, key, property),
        update_relationship_result(m, key, relationship) is Ok && (
        relationship.inverse_label is Some ==> relationship.inverse_label->0@.len() > 0)
            ==> update_relationship_result(
            m,
            key,
            relationship,
        )->Ok_0.relationship_definitions[key].definition == updated_relationship(
            m,
            key,
            relationship,
        ),
{
}

} // verus!
