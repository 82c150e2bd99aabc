//! Definitions of Property and Relationship keys.
use vstd::prelude::*;
use crate::api::{
    clone_optional_text, optional_text, page_fault, page_of, window_bounds, Commit,
    DefinitionState, DefinitionUsage, NewPropertyDefinition, NewRelationshipDefinition,
    PropertyDefinition, PropertyDefinitionUpdate, PropertyDefinitionView, ReadPage,
    RelationshipDefinition, RelationshipDefinitionUpdate, RelationshipDefinitionView,
    RelationshipView,
};
use crate::error::{conflict, CoreError, ErrorView};
use crate::id::NodeId;
use crate::record_store::keys::{
    definition_fields_fault, key_fault, validate_definition_fields, validate_key, KeyUse,
};
use crate::record_store::model::{
    ChangeKind, PropertyDefinitionRow, PropertyDefinitionRowView, RecordModel, RecordStore,
    RelationshipDefinitionRow, RelationshipDefinitionRowView,
};
use crate::record_store::operations::{advance, already_exists, journaled, meets};
use crate::record_store::queries::optional_str;
use crate::table::{in_order, lemma_next_is_new};
use crate::text::{decimal, decimal_of, join3, join5, same_text};

verus! {

/// Whether an optional text is there and is this one.
pub open spec fn is_text(text: Option<Seq<char>>, expected: Seq<char>) -> bool {
    text == Some(expected)
}

fn names(text: &Option<String>, expected: &str) -> (r: bool)
    ensures
        r == is_text(optional_text(*text), expected@),
{
    match text {
        Some(t) => same_text(t.as_str(), expected),
        None => false,
    }
}

fn owned(text: Option<&str>) -> (r: Option<String>)
    ensures
        optional_text(r) == optional_str(text),
{
    match text {
        Some(t) => Some(t.to_owned()),
        None => None,
    }
}

/// The failure of a definition whose version has no next.
pub open spec fn last_version() -> ErrorView {
    ErrorView::Database("Invalid column type Real at index: 7, name: definition_version"@)
}

fn last_version_error() -> (r: CoreError)
    ensures
        r@ == last_version(),
{
    CoreError::Database(
        "Invalid column type Real at index: 7, name: definition_version".to_owned(),
    )
}

/// The failure of a definition that facts or other definitions still use.
pub open spec fn still_referenced(key: Seq<char>, uses: nat) -> ErrorView {
    ErrorView::Conflict(
        "definition "@ + key + " is still referenced "@ + decimal_of(uses) + " time(s)"@,
    )
}

fn still_referenced_error(key: &str, uses: u128) -> (r: CoreError)
    ensures
        r@ == still_referenced(key@, uses as nat),
{
    let count = decimal(uses);
    CoreError::Conflict(
        join5("definition ", key, " is still referenced ", count.as_str(), " time(s)"),
    )
}

/// How many Nodes have a Property with this key.
pub open spec fn property_fact_count(m: RecordModel, key: Seq<char>) -> nat {
    m.nodes.dom().filter(|id: NodeId| m.nodes[id].properties.dom().contains(key)).len()
}

/// How many Relationships have this key.
pub open spec fn relationship_fact_count(m: RecordModel, key: Seq<char>) -> nat {
    m.relationships.dom().filter(|r: RelationshipView| r.key == key).len()
}

/// An inverse label as the store keeps it: an empty one is none.
pub open spec fn kept_label(label: Option<Seq<char>>) -> Option<Seq<char>> {
    match label {
        Some(t) => if t.len() == 0 {
            None
        } else {
            Some(t)
        },
        None => None,
    }
}

/// An inverse label as the store keeps it.
pub fn keep_label(label: &Option<String>) -> (r: Option<String>)
    ensures
        optional_text(r) == kept_label(optional_text(*label)),
{
    match label {
        Some(t) => if t.as_str().is_empty() {
            None
        } else {
            Some(t.clone())
        },
        None => None,
    }
}

/// A new Property definition.
pub open spec fn new_property_definition(input: NewPropertyDefinition) -> PropertyDefinitionView {
    PropertyDefinitionView {
        key: input.key@,
        label: input.label@,
        description: optional_text(input.description),
        expected_value_kind: input.expected_value_kind,
        state: DefinitionState::Active,
        replacement_key: None,
        origin: input.origin@,
        version: 1,
    }
}

/// A Property definition as the store keeps it.
pub open spec fn kept_property_definition(d: PropertyDefinitionView) -> PropertyDefinitionView {
    d
}

/// A Property definition once it is updated.
pub open spec fn updated_property(
    m: RecordModel,
    key: Seq<char>,
    update: PropertyDefinitionUpdate,
) -> PropertyDefinitionView {
    let current = m.property_definitions[key].definition;
    PropertyDefinitionView {
        key,
        label: update.label@,
        description: optional_text(update.description),
        expected_value_kind: update.expected_value_kind,
        version: (current.version + 1) as u64,
        ..current
    }
}

/// What updating a Property definition makes of the store. While facts use the definition, its
/// expected kind stays.
pub open spec fn update_property_result(
    m: RecordModel,
    key: Seq<char>,
    update: PropertyDefinitionUpdate,
) -> Result<RecordModel, ErrorView> {
    match definition_fields_fault(key, update.label@, "existing"@) {
        Some(fault) => Err(fault),
        None => match property_definition_missing(m, key) {
            Some(fault) => Err(fault),
            None => if m.property_definitions[key].definition.expected_value_kind
                != update.expected_value_kind && property_fact_count(m, key) > 0 {
                Err(
                    ErrorView::Conflict(
                        "expected value kind cannot change while durable facts use the definition"@,
                    ),
                )
            } else if m.property_definitions[key].definition.version >= i64::MAX {
                Err(last_version())
            } else {
                match advance(m) {
                    Err(fault) => Err(fault),
                    Ok(next) => Ok(
                        with_property_definition(
                            next,
                            updated_property(m, key, update),
                            ChangeKind::PropertyDefinitionUpdated,
                            None,
                        ),
                    ),
                }
            },
        },
    }
}

/// How many Property definitions name this key as their replacement.
pub open spec fn property_replacement_count(m: RecordModel, key: Seq<char>) -> nat {
    m.property_definitions.dom().filter(
        |k: Seq<char>| is_text(m.property_definitions[k].definition.replacement_key, key),
    ).len()
}

/// Why there is no Property definition to read under a key.
pub open spec fn property_definition_missing(m: RecordModel, key: Seq<char>) -> Option<ErrorView> {
    match key_fault(key, KeyUse::Definition) {
        Some(fault) => Some(fault),
        None => if m.property_definitions.dom().contains(key) {
            None
        } else {
            Some(ErrorView::DefinitionNotFound(key))
        },
    }
}

/// Why a Property definition cannot be replaced by another one: the other is the same one, is not
/// there, or is not active.
pub open spec fn property_replacement_fault(
    m: RecordModel,
    key: Seq<char>,
    replacement: Option<Seq<char>>,
) -> Option<ErrorView> {
    match replacement {
        None => None,
        Some(other) => match key_fault(other, KeyUse::Definition) {
            Some(fault) => Some(fault),
            None => if other == key {
                Some(ErrorView::Conflict("a definition cannot replace itself"@))
            } else if !m.property_definitions.dom().contains(other) {
                Some(ErrorView::DefinitionNotFound(other))
            } else if !(m.property_definitions[other].definition.state is Active) {
                Some(
                    ErrorView::Conflict(
                        "replacement definition "@ + other + " must be active"@,
                    ),
                )
            } else {
                None
            },
        },
    }
}

/// The store with a Property definition set at the current revision, and that journaled.
pub open spec fn with_property_definition(
    m: RecordModel,
    definition: PropertyDefinitionView,
    kind: ChangeKind,
    replacement: Option<Seq<char>>,
) -> RecordModel {
    journaled(
        RecordModel {
            property_definitions: m.property_definitions.insert(
                definition.key,
                PropertyDefinitionRowView { definition, modified_revision: m.revision },
            ),
            ..m
        },
        0,
        kind,
        None,
        Some(definition.key),
        None,
        replacement,
    )
}

/// What registering a Property definition makes of the store.
pub open spec fn register_property_result(
    m: RecordModel,
    definition: PropertyDefinitionView,
) -> Result<RecordModel, ErrorView> {
    match definition_fields_fault(definition.key, definition.label, definition.origin) {
        Some(fault) => Err(fault),
        None => if m.property_definitions.dom().contains(definition.key) {
            Err(
                ErrorView::AlreadyExists {
                    entity: "Property definition"@,
                    identifier: definition.key,
                },
            )
        } else {
            match advance(m) {
                Err(fault) => Err(fault),
                Ok(next) => Ok(
                    with_property_definition(
                        next,
                        kept_property_definition(definition),
                        ChangeKind::PropertyDefinitionRegistered,
                        None,
                    ),
                ),
            }
        },
    }
}

/// What deprecating a Property definition makes of the store.
pub open spec fn deprecate_property_result(
    m: RecordModel,
    key: Seq<char>,
    replacement: Option<Seq<char>>,
) -> Result<RecordModel, ErrorView> {
    match property_definition_missing(m, key) {
        Some(fault) => Err(fault),
        None => match property_replacement_fault(m, key, replacement) {
            Some(fault) => Err(fault),
            None => if m.property_definitions[key].definition.version >= i64::MAX {
                Err(last_version())
            } else {
                match advance(m) {
                    Err(fault) => Err(fault),
                    Ok(next) => Ok(
                        with_property_definition(
                            next,
                            deprecated_property(m, key, replacement),
                            ChangeKind::PropertyDefinitionDeprecated,
                            replacement,
                        ),
                    ),
                }
            },
        },
    }
}

/// A Property definition once it is deprecated.
pub open spec fn deprecated_property(
    m: RecordModel,
    key: Seq<char>,
    replacement: Option<Seq<char>>,
) -> PropertyDefinitionView {
    let current = m.property_definitions[key].definition;
    PropertyDefinitionView {
        key,
        state: DefinitionState::Deprecated,
        replacement_key: replacement,
        version: (current.version + 1) as u64,
        ..current
    }
}

/// What removing a Property definition makes of the store: it must be there, and neither facts nor
/// other definitions may use it.
pub open spec fn remove_property_result(m: RecordModel, key: Seq<char>) -> Result<
    RecordModel,
    ErrorView,
> {
    if !m.property_definitions.dom().contains(key) {
        Err(ErrorView::DefinitionNotFound(key))
    } else {
        let uses = property_fact_count(m, key) + property_replacement_count(m, key);
        if uses > 0 {
            Err(still_referenced(key, uses))
        } else {
            match advance(m) {
                Err(fault) => Err(fault),
                Ok(next) => Ok(
                    journaled(
                        RecordModel {
                            property_definitions: next.property_definitions.remove(key),
                            ..next
                        },
                        0,
                        ChangeKind::PropertyDefinitionRemoved,
                        None,
                        Some(key),
                        None,
                        None,
                    ),
                ),
            }
        }
    }
}

/// The Property definitions, in the order of their keys.
pub open spec fn property_definition_list(m: RecordModel) -> Seq<PropertyDefinitionView> {
    let keys = in_order::<String>(m.property_definitions.dom());
    Seq::new(keys.len(), |i: int| m.property_definitions[keys[i]].definition)
}

/// The views of a run of Property definitions.
pub open spec fn property_definitions_view(items: Seq<PropertyDefinition>) -> Seq<
    PropertyDefinitionView,
> {
    Seq::new(items.len(), |i: int| items[i]@)
}

/// A new Relationship definition.
pub open spec fn new_relationship_definition(
    input: NewRelationshipDefinition,
) -> RelationshipDefinitionView {
    RelationshipDefinitionView {
        key: input.key@,
        forward_label: input.forward_label@,
        inverse_label: optional_text(input.inverse_label),
        description: optional_text(input.description),
        state: DefinitionState::Active,
        replacement_key: None,
        origin: input.origin@,
        version: 1,
    }
}

/// A Relationship definition as the store keeps it: an empty inverse label is none.
pub open spec fn kept_relationship_definition(
    d: RelationshipDefinitionView,
) -> RelationshipDefinitionView {
    RelationshipDefinitionView { inverse_label: kept_label(d.inverse_label), ..d }
}

/// A Relationship definition once it is updated.
pub open spec fn updated_relationship(
    m: RecordModel,
    key: Seq<char>,
    update: RelationshipDefinitionUpdate,
) -> RelationshipDefinitionView {
    let current = m.relationship_definitions[key].definition;
    RelationshipDefinitionView {
        key,
        forward_label: update.forward_label@,
        inverse_label: optional_text(update.inverse_label),
        description: optional_text(update.description),
        version: (current.version + 1) as u64,
        ..current
    }
}

/// What updating a Relationship definition makes of the store.
pub open spec fn update_relationship_result(
    m: RecordModel,
    key: Seq<char>,
    update: RelationshipDefinitionUpdate,
) -> Result<RecordModel, ErrorView> {
    match definition_fields_fault(key, update.forward_label@, "existing"@) {
        Some(fault) => Err(fault),
        None => match relationship_definition_missing(m, key) {
            Some(fault) => Err(fault),
            None => if m.relationship_definitions[key].definition.version >= i64::MAX {
                Err(last_version())
            } else {
                match advance(m) {
                    Err(fault) => Err(fault),
                    Ok(next) => Ok(
                        with_relationship_definition(
                            next,
                            kept_relationship_definition(updated_relationship(m, key, update)),
                            ChangeKind::RelationshipDefinitionUpdated,
                            None,
                        ),
                    ),
                }
            },
        },
    }
}

/// How many Relationship definitions name this key as their replacement.
pub open spec fn relationship_replacement_count(m: RecordModel, key: Seq<char>) -> nat {
    m.relationship_definitions.dom().filter(
        |k: Seq<char>| is_text(m.relationship_definitions[k].definition.replacement_key, key),
    ).len()
}

/// Why there is no Relationship definition to read under a key.
pub open spec fn relationship_definition_missing(m: RecordModel, key: Seq<char>) -> Option<ErrorView> {
    match key_fault(key, KeyUse::Definition) {
        Some(fault) => Some(fault),
        None => if m.relationship_definitions.dom().contains(key) {
            None
        } else {
            Some(ErrorView::DefinitionNotFound(key))
        },
    }
}

/// Why a Relationship definition cannot be replaced by another one: the other is the same one, is not
/// there, or is not active.
pub open spec fn relationship_replacement_fault(
    m: RecordModel,
    key: Seq<char>,
    replacement: Option<Seq<char>>,
) -> Option<ErrorView> {
    match replacement {
        None => None,
        Some(other) => match key_fault(other, KeyUse::Definition) {
            Some(fault) => Some(fault),
            None => if other == key {
                Some(ErrorView::Conflict("a definition cannot replace itself"@))
            } else if !m.relationship_definitions.dom().contains(other) {
                Some(ErrorView::DefinitionNotFound(other))
            } else if !(m.relationship_definitions[other].definition.state is Active) {
                Some(
                    ErrorView::Conflict(
                        "replacement definition "@ + other + " must be active"@,
                    ),
                )
            } else {
                None
            },
        },
    }
}

/// The store with a Relationship definition set at the current revision, and that journaled.
pub open spec fn with_relationship_definition(
    m: RecordModel,
    definition: RelationshipDefinitionView,
    kind: ChangeKind,
    replacement: Option<Seq<char>>,
) -> RecordModel {
    journaled(
        RecordModel {
            relationship_definitions: m.relationship_definitions.insert(
                definition.key,
                RelationshipDefinitionRowView { definition, modified_revision: m.revision },
            ),
            ..m
        },
        0,
        kind,
        None,
        Some(definition.key),
        None,
        replacement,
    )
}

/// What registering a Relationship definition makes of the store.
pub open spec fn register_relationship_result(
    m: RecordModel,
    definition: RelationshipDefinitionView,
) -> Result<RecordModel, ErrorView> {
    match definition_fields_fault(definition.key, definition.forward_label, definition.origin) {
        Some(fault) => Err(fault),
        None => if m.relationship_definitions.dom().contains(definition.key) {
            Err(
                ErrorView::AlreadyExists {
                    entity: "Relationship definition"@,
                    identifier: definition.key,
                },
            )
        } else {
            match advance(m) {
                Err(fault) => Err(fault),
                Ok(next) => Ok(
                    with_relationship_definition(
                        next,
                        kept_relationship_definition(definition),
                        ChangeKind::RelationshipDefinitionRegistered,
                        None,
                    ),
                ),
            }
        },
    }
}

/// What deprecating a Relationship definition makes of the store.
pub open spec fn deprecate_relationship_result(
    m: RecordModel,
    key: Seq<char>,
    replacement: Option<Seq<char>>,
) -> Result<RecordModel, ErrorView> {
    match relationship_definition_missing(m, key) {
        Some(fault) => Err(fault),
        None => match relationship_replacement_fault(m, key, replacement) {
            Some(fault) => Err(fault),
            None => if m.relationship_definitions[key].definition.version >= i64::MAX {
                Err(last_version())
            } else {
                match advance(m) {
                    Err(fault) => Err(fault),
                    Ok(next) => Ok(
                        with_relationship_definition(
                            next,
                            deprecated_relationship(m, key, replacement),
                            ChangeKind::RelationshipDefinitionDeprecated,
                            replacement,
                        ),
                    ),
                }
            },
        },
    }
}

/// A Relationship definition once it is deprecated.
pub open spec fn deprecated_relationship(
    m: RecordModel,
    key: Seq<char>,
    replacement: Option<Seq<char>>,
) -> RelationshipDefinitionView {
    let current = m.relationship_definitions[key].definition;
    RelationshipDefinitionView {
        key,
        state: DefinitionState::Deprecated,
        replacement_key: replacement,
        version: (current.version + 1) as u64,
        ..current
    }
}

/// What removing a Relationship definition makes of the store: it must be there, and neither facts nor
/// other definitions may use it.
pub open spec fn remove_relationship_result(m: RecordModel, key: Seq<char>) -> Result<
    RecordModel,
    ErrorView,
> {
    if !m.relationship_definitions.dom().contains(key) {
        Err(ErrorView::DefinitionNotFound(key))
    } else {
        let uses = relationship_fact_count(m, key) + relationship_replacement_count(m, key);
        if uses > 0 {
            Err(still_referenced(key, uses))
        } else {
            match advance(m) {
                Err(fault) => Err(fault),
                Ok(next) => Ok(
                    journaled(
                        RecordModel {
                            relationship_definitions: next.relationship_definitions.remove(key),
                            ..next
                        },
                        0,
                        ChangeKind::RelationshipDefinitionRemoved,
                        None,
                        Some(key),
                        None,
                        None,
                    ),
                ),
            }
        }
    }
}

/// The Relationship definitions, in the order of their keys.
pub open spec fn relationship_definition_list(m: RecordModel) -> Seq<RelationshipDefinitionView> {
    let keys = in_order::<String>(m.relationship_definitions.dom());
    Seq::new(keys.len(), |i: int| m.relationship_definitions[keys[i]].definition)
}

/// The views of a run of Relationship definitions.
pub open spec fn relationship_definitions_view(items: Seq<RelationshipDefinition>) -> Seq<
    RelationshipDefinitionView,
> {
    Seq::new(items.len(), |i: int| items[i]@)
}

impl RecordStore {
    /// Sets a Property definition at the current revision, and journals that.
    fn put_property_definition(
        &mut self,
        definition: PropertyDefinition,
        kind: ChangeKind,
        replacement: Option<String>,
    )
        requires
            old(self).wf(),
        ensures
            final(self).wf(),
            final(self)@ == with_property_definition(
                old(self)@,
                definition@,
                kind,
                optional_text(replacement),
            ),
    {
        let key = definition.key.clone();
        let journal_key = definition.key.clone();
        self.property_definitions.insert(
            key,
            PropertyDefinitionRow { definition, modified_revision: self.revision },
        );
        self.journal_change(0, kind, None, Some(journal_key), None, replacement);
    }

    /// The Property definition of a key.
    pub fn get_property_definition(&self, key: &str) -> (r: Result<PropertyDefinition, CoreError>)
        requires
            self.wf(),
        ensures
            match r {
                Ok(definition) => property_definition_missing(self@, key@) is None && definition@
                    == self@.property_definitions[key@].definition,
                Err(e) => property_definition_missing(self@, key@) == Some(e@),
            },
    {
        match validate_key(key, KeyUse::Definition) {
            Err(e) => return Err(e),
            Ok(_) => {},
        }
        match self.property_definitions.get(&key.to_owned()) {
            Some(row) => Ok(row.definition.clone()),
            None => Err(CoreError::DefinitionNotFound(key.to_owned())),
        }
    }

    /// Registers a Property definition.
    pub fn register_property_definition(&mut self, definition: &NewPropertyDefinition) -> (r: Result<
        PropertyDefinition,
        CoreError,
    >)
        requires
            old(self).wf(),
        ensures
            final(self).wf(),
            meets(
                r,
                final(self)@,
                register_property_result(old(self)@, new_property_definition(*definition)),
            ),
            match r {
                Ok(registered) => registered@ == new_property_definition(*definition),
                Err(_) => *final(self) == *old(self),
            },
    {
        match validate_definition_fields(
            definition.key.as_str(),
            definition.label.as_str(),
            definition.origin.as_str(),
        ) {
            Err(e) => return Err(e),
            Ok(_) => {},
        }
        if self.property_definitions.contains(&definition.key) {
            return Err(already_exists("Property definition", definition.key.clone()));
        }
        match self.next_revision() {
            Err(e) => return Err(e),
            Ok(_) => {},
        }
        let registered = PropertyDefinition {
            key: definition.key.clone(),
            label: definition.label.clone(),
            description: clone_optional_text(&definition.description),
            expected_value_kind: definition.expected_value_kind,
            state: DefinitionState::Active,
            replacement_key: None,
            origin: definition.origin.clone(),
            version: 1,
        };
        self.put_property_definition(
            registered.clone(),
            ChangeKind::PropertyDefinitionRegistered,
            None,
        );
        Ok(registered)
    }

    /// Refuses a replacement that a Property definition cannot have.
    fn validate_property_replacement(&self, key: &str, replacement: Option<&str>) -> (r: Result<
        (),
        CoreError,
    >)
        requires
            self.wf(),
        ensures
            match r {
                Ok(_) => property_replacement_fault(self@, key@, optional_str(replacement)) is None,
                Err(e) => property_replacement_fault(self@, key@, optional_str(replacement)) == Some(
                    e@,
                ),
            },
    {
        match replacement {
            None => Ok(()),
            Some(other) => {
                match validate_key(other, KeyUse::Definition) {
                    Err(e) => return Err(e),
                    Ok(_) => {},
                }
                if same_text(other, key) {
                    return Err(conflict("a definition cannot replace itself"));
                }
                match self.property_definitions.get(&other.to_owned()) {
                    None => Err(CoreError::DefinitionNotFound(other.to_owned())),
                    Some(row) => if row.definition.state != DefinitionState::Active {
                        Err(
                            CoreError::Conflict(
                                join3("replacement definition ", other, " must be active"),
                            ),
                        )
                    } else {
                        Ok(())
                    },
                }
            },
        }
    }

    /// Deprecates a Property definition, and names the one to use in its place.
    pub fn deprecate_property_definition(&mut self, key: &str, replacement: Option<&str>) -> (r: Result<
        PropertyDefinition,
        CoreError,
    >)
        requires
            old(self).wf(),
        ensures
            final(self).wf(),
            meets(
                r,
                final(self)@,
                deprecate_property_result(old(self)@, key@, optional_str(replacement)),
            ),
            match r {
                Ok(definition) => definition@ == deprecated_property(
                    old(self)@,
                    key@,
                    optional_str(replacement),
                ),
                Err(_) => *final(self) == *old(self),
            },
    {
        let mut definition = match self.get_property_definition(key) {
            Err(e) => return Err(e),
            Ok(definition) => definition,
        };
        match self.validate_property_replacement(key, replacement) {
            Err(e) => return Err(e),
            Ok(_) => {},
        }
        if definition.version >= i64::MAX as u64 {
            return Err(last_version_error());
        }
        match self.next_revision() {
            Err(e) => return Err(e),
            Ok(_) => {},
        }
        definition.key = key.to_owned();
        definition.state = DefinitionState::Deprecated;
        definition.replacement_key = owned(replacement);
        definition.version = definition.version + 1;
        self.put_property_definition(
            definition.clone(),
            ChangeKind::PropertyDefinitionDeprecated,
            owned(replacement),
        );
        Ok(definition)
    }

    /// How many Nodes have a Property with this key.
    fn count_property_facts(&self, key: &str) -> (r: usize)
        requires
            self.wf(),
        ensures
            r == property_fact_count(self@, key@),
    {
        let table = &self.nodes;
        let ghost rows = self@.nodes;
        let owned_key = key.to_owned();
        let ghost mut found: Set<NodeId> = Set::empty();
        let mut count: usize = 0;
        let mut i: usize = 0;
        proof {
            table.lemma_view();
        }
        while i < table.len()
            invariant
                table.wf(),
                rows == table@,
                owned_key@ == key@,
                i <= table.keys().len(),
                count <= i,
                found.finite(),
                count == found.len(),
                forall|k: NodeId| #[trigger]
                    found.contains(k) <==> table.keys().subrange(0, i as int).contains(k)
                        && rows[k].properties.dom().contains(key@),
            decreases table.keys().len() - i,
        {
            let ghost k0 = table.keys()[i as int];
            proof {
                table.lemma_view();
                lemma_next_is_new::<NodeId>(table.keys(), i as int);
            }
            if table.row_at(i).properties.contains(&owned_key) {
                count = count + 1;
                proof {
                    found = found.insert(k0);
                }
            }
            i = i + 1;
        }
        proof {
            table.lemma_view();
            assert(table.keys().subrange(0, i as int) =~= table.keys());
            assert(found =~= rows.dom().filter(|k: NodeId| rows[k].properties.dom().contains(key@)));
        }
        count
    }

    /// How many Property definitions name this key as their replacement.
    fn count_property_replacements(&self, key: &str) -> (r: usize)
        requires
            self.wf(),
        ensures
            r == property_replacement_count(self@, key@),
    {
        let table = &self.property_definitions;
        let ghost rows = self@.property_definitions;
        let ghost mut found: Set<Seq<char>> = Set::empty();
        let mut count: usize = 0;
        let mut i: usize = 0;
        proof {
            table.lemma_view();
        }
        while i < table.len()
            invariant
                table.wf(),
                rows == table@,
                i <= table.keys().len(),
                count <= i,
                found.finite(),
                count == found.len(),
                forall|k: Seq<char>| #[trigger]
                    found.contains(k) <==> table.keys().subrange(0, i as int).contains(k)
                        && is_text(rows[k].definition.replacement_key, key@),
            decreases table.keys().len() - i,
        {
            let ghost k0 = table.keys()[i as int];
            proof {
                table.lemma_view();
                lemma_next_is_new::<String>(table.keys(), i as int);
            }
            if names(&table.row_at(i).definition.replacement_key, key) {
                count = count + 1;
                proof {
                    found = found.insert(k0);
                }
            }
            i = i + 1;
        }
        proof {
            table.lemma_view();
            assert(table.keys().subrange(0, i as int) =~= table.keys());
            assert(found =~= rows.dom().filter(
                |k: Seq<char>| is_text(rows[k].definition.replacement_key, key@),
            ));
        }
        count
    }

    /// How many facts use a Property definition.
    pub fn property_definition_usage(&self, key: &str) -> (r: Result<DefinitionUsage, CoreError>)
        requires
            self.wf(),
        ensures
            match r {
                Ok(usage) => property_definition_missing(self@, key@) is None && usage.key@ == key@
                    && usage.fact_count == property_fact_count(self@, key@),
                Err(e) => property_definition_missing(self@, key@) == Some(e@),
            },
    {
        match self.get_property_definition(key) {
            Err(e) => Err(e),
            Ok(_) => Ok(
                DefinitionUsage {
                    key: key.to_owned(),
                    fact_count: self.count_property_facts(key) as u64,
                },
            ),
        }
    }

    /// Removes a Property definition that nothing uses.
    pub fn remove_property_definition(&mut self, key: &str) -> (r: Result<Commit, CoreError>)
        requires
            old(self).wf(),
        ensures
            final(self).wf(),
            meets(r, final(self)@, remove_property_result(old(self)@, key@)),
            match r {
                Ok(commit) => commit.revision == final(self)@.revision && commit.change_count == 1,
                Err(_) => *final(self) == *old(self),
            },
    {
        let owned_key = key.to_owned();
        if !self.property_definitions.contains(&owned_key) {
            return Err(CoreError::DefinitionNotFound(owned_key));
        }
        let uses: u128 = self.count_property_facts(key) as u128 + self.count_property_replacements(
            key,
        ) as u128;
        if uses > 0 {
            return Err(still_referenced_error(key, uses));
        }
        match self.next_revision() {
            Err(e) => return Err(e),
            Ok(_) => {},
        }
        self.property_definitions.remove(&owned_key);
        self.journal_change(
            0,
            ChangeKind::PropertyDefinitionRemoved,
            None,
            Some(owned_key),
            None,
            None,
        );
        Ok(Commit { revision: self.revision, change_count: 1 })
    }

    /// The Property definitions from one place of their order to another.
    pub(crate) fn property_definitions_between(&self, from: usize, to: usize) -> (r: Vec<
        PropertyDefinition,
    >)
        requires
            self.wf(),
            from <= to <= self.property_definitions.keys().len(),
        ensures
            property_definitions_view(r@) == property_definition_list(self@).subrange(
                from as int,
                to as int,
            ),
    {
        let table = &self.property_definitions;
        let mut r: Vec<PropertyDefinition> = Vec::new();
        let mut i: usize = from;
        while i < to
            invariant
                table.wf(),
                from <= i <= to <= table.keys().len(),
                r@.len() == i - from,
                forall|j: int|
                    0 <= j < r@.len() ==> (#[trigger] r@[j])@ == table@[table.keys()[from
                        + j]].definition,
            decreases to - i,
        {
            r.push(table.row_at(i).definition.clone());
            i = i + 1;
        }
        proof {
            table.lemma_view();
            assert(property_definitions_view(r@) =~= property_definition_list(self@).subrange(
                from as int,
                to as int,
            ));
        }
        r
    }

    /// The Property definitions, in the order of their keys.
    pub fn list_property_definitions(&self) -> (r: Vec<PropertyDefinition>)
        requires
            self.wf(),
        ensures
            property_definitions_view(r@) == property_definition_list(self@),
    {
        let len: usize = self.property_definitions.len();
        proof {
            self.property_definitions.lemma_view();
            let all = property_definition_list(self@);
            assert(all.subrange(0, len as int) =~= all);
        }
        self.property_definitions_between(0, len)
    }

    /// A window of the Property definitions, in the order of their keys.
    pub fn list_property_definitions_page(&self, page: ReadPage) -> (r: Result<
        Vec<PropertyDefinition>,
        CoreError,
    >)
        requires
            self.wf(),
        ensures
            match r {
                Ok(items) => page_fault(page) is None && property_definitions_view(items@) == page_of(
                    property_definition_list(self@),
                    page,
                ),
                Err(e) => page_fault(page) == Some(e@),
            },
    {
        match page.sql_offset() {
            Err(e) => Err(e),
            Ok(_) => {
                let (from, to) = window_bounds(
                    page.offset,
                    page.sql_limit() as usize,
                    self.property_definitions.len(),
                );
                proof {
                    self.property_definitions.lemma_view();
                }
                Ok(self.property_definitions_between(from, to))
            },
        }
    }

    /// Updates the label, description and expected kind of a Property definition.
    pub fn update_property_definition(&mut self, key: &str, update: &PropertyDefinitionUpdate) -> (r:
        Result<PropertyDefinition, CoreError>)
        requires
            old(self).wf(),
        ensures
            final(self).wf(),
            meets(r, final(self)@, update_property_result(old(self)@, key@, *update)),
            match r {
                Ok(definition) => definition@ == updated_property(old(self)@, key@, *update),
                Err(_) => *final(self) == *old(self),
            },
    {
        match validate_definition_fields(key, update.label.as_str(), "existing") {
            Err(e) => return Err(e),
            Ok(_) => {},
        }
        let mut definition = match self.get_property_definition(key) {
            Err(e) => return Err(e),
            Ok(definition) => definition,
        };
        let same_kind = match (definition.expected_value_kind, update.expected_value_kind) {
            (Some(a), Some(b)) => a == b,
            (None, None) => true,
            _ => false,
        };
        if !same_kind && self.count_property_facts(key) > 0 {
            return Err(
                conflict(
                    "expected value kind cannot change while durable facts use the definition",
                ),
            );
        }
        if definition.version >= i64::MAX as u64 {
            return Err(last_version_error());
        }
        match self.next_revision() {
            Err(e) => return Err(e),
            Ok(_) => {},
        }
        definition.key = key.to_owned();
        definition.label = update.label.clone();
        definition.description = clone_optional_text(&update.description);
        definition.expected_value_kind = update.expected_value_kind;
        definition.version = definition.version + 1;
        self.put_property_definition(
            definition.clone(),
            ChangeKind::PropertyDefinitionUpdated,
            None,
        );
        Ok(definition)
    }
}

impl RecordStore {
    /// Sets a Relationship definition at the current revision, and journals that.
    fn put_relationship_definition(
        &mut self,
        definition: RelationshipDefinition,
        kind: ChangeKind,
        replacement: Option<String>,
    )
        requires
            old(self).wf(),
        ensures
            final(self).wf(),
            final(self)@ == with_relationship_definition(
                old(self)@,
                definition@,
                kind,
                optional_text(replacement),
            ),
    {
        let key = definition.key.clone();
        let journal_key = definition.key.clone();
        self.relationship_definitions.insert(
            key,
            RelationshipDefinitionRow { definition, modified_revision: self.revision },
        );
        self.journal_change(0, kind, None, Some(journal_key), None, replacement);
    }

    /// The Relationship definition of a key.
    pub fn get_relationship_definition(&self, key: &str) -> (r: Result<RelationshipDefinition, CoreError>)
        requires
            self.wf(),
        ensures
            match r {
                Ok(definition) => relationship_definition_missing(self@, key@) is None && definition@
                    == self@.relationship_definitions[key@].definition,
                Err(e) => relationship_definition_missing(self@, key@) == Some(e@),
            },
    {
        match validate_key(key, KeyUse::Definition) {
            Err(e) => return Err(e),
            Ok(_) => {},
        }
        match self.relationship_definitions.get(&key.to_owned()) {
            Some(row) => Ok(row.definition.clone()),
            None => Err(CoreError::DefinitionNotFound(key.to_owned())),
        }
    }

    /// Registers a Relationship definition.
    pub fn register_relationship_definition(&mut self, definition: &NewRelationshipDefinition) -> (r: Result<
        RelationshipDefinition,
        CoreError,
    >)
        requires
            old(self).wf(),
        ensures
            final(self).wf(),
            meets(
                r,
                final(self)@,
                register_relationship_result(old(self)@, new_relationship_definition(*definition)),
            ),
            match r {
                Ok(registered) => registered@ == new_relationship_definition(*definition),
                Err(_) => *final(self) == *old(self),
            },
    {
        match validate_definition_fields(
            definition.key.as_str(),
            definition.forward_label.as_str(),
            definition.origin.as_str(),
        ) {
            Err(e) => return Err(e),
            Ok(_) => {},
        }
        if self.relationship_definitions.contains(&definition.key) {
            return Err(already_exists("Relationship definition", definition.key.clone()));
        }
        match self.next_revision() {
            Err(e) => return Err(e),
            Ok(_) => {},
        }
        let registered = RelationshipDefinition {
            key: definition.key.clone(),
            forward_label: definition.forward_label.clone(),
            inverse_label: clone_optional_text(&definition.inverse_label),
            description: clone_optional_text(&definition.description),
            state: DefinitionState::Active,
            replacement_key: None,
            origin: definition.origin.clone(),
            version: 1,
        };
        self.put_relationship_definition(
            RelationshipDefinition {
                inverse_label: keep_label(&registered.inverse_label),
                ..registered.clone()
            },
            ChangeKind::RelationshipDefinitionRegistered,
            None,
        );
        Ok(registered)
    }

    /// Refuses a replacement that a Relationship definition cannot have.
    fn validate_relationship_replacement(&self, key: &str, replacement: Option<&str>) -> (r: Result<
        (),
        CoreError,
    >)
        requires
            self.wf(),
        ensures
            match r {
                Ok(_) => relationship_replacement_fault(self@, key@, optional_str(replacement)) is None,
                Err(e) => relationship_replacement_fault(self@, key@, optional_str(replacement)) == Some(
                    e@,
                ),
            },
    {
        match replacement {
            None => Ok(()),
            Some(other) => {
                match validate_key(other, KeyUse::Definition) {
                    Err(e) => return Err(e),
                    Ok(_) => {},
                }
                if same_text(other, key) {
                    return Err(conflict("a definition cannot replace itself"));
                }
                match self.relationship_definitions.get(&other.to_owned()) {
                    None => Err(CoreError::DefinitionNotFound(other.to_owned())),
                    Some(row) => if row.definition.state != DefinitionState::Active {
                        Err(
                            CoreError::Conflict(
                                join3("replacement definition ", other, " must be active"),
                            ),
                        )
                    } else {
                        Ok(())
                    },
                }
            },
        }
    }

    /// Deprecates a Relationship definition, and names the one to use in its place.
    pub fn deprecate_relationship_definition(&mut self, key: &str, replacement: Option<&str>) -> (r: Result<
        RelationshipDefinition,
        CoreError,
    >)
        requires
            old(self).wf(),
        ensures
            final(self).wf(),
            meets(
                r,
                final(self)@,
                deprecate_relationship_result(old(self)@, key@, optional_str(replacement)),
            ),
            match r {
                Ok(definition) => definition@ == deprecated_relationship(
                    old(self)@,
                    key@,
                    optional_str(replacement),
                ),
                Err(_) => *final(self) == *old(self),
            },
    {
        let mut definition = match self.get_relationship_definition(key) {
            Err(e) => return Err(e),
            Ok(definition) => definition,
        };
        match self.validate_relationship_replacement(key, replacement) {
            Err(e) => return Err(e),
            Ok(_) => {},
        }
        if definition.version >= i64::MAX as u64 {
            return Err(last_version_error());
        }
        match self.next_revision() {
            Err(e) => return Err(e),
            Ok(_) => {},
        }
        definition.key = key.to_owned();
        definition.state = DefinitionState::Deprecated;
        definition.replacement_key = owned(replacement);
        definition.version = definition.version + 1;
        self.put_relationship_definition(
            definition.clone(),
            ChangeKind::RelationshipDefinitionDeprecated,
            owned(replacement),
        );
        Ok(definition)
    }

    /// How many Relationships have this key.
    fn count_relationship_facts(&self, key: &str) -> (r: usize)
        requires
            self.wf(),
        ensures
            r == relationship_fact_count(self@, key@),
    {
        let table = &self.relationships;
        let ghost rows = self@.relationships;
        let owned_key = key.to_owned();
        let ghost mut found: Set<RelationshipView> = Set::empty();
        let mut count: usize = 0;
        let mut i: usize = 0;
        proof {
            table.lemma_view();
        }
        while i < table.len()
            invariant
                table.wf(),
                rows == table@,
                owned_key@ == key@,
                i <= table.keys().len(),
                count <= i,
                found.finite(),
                count == found.len(),
                forall|k: RelationshipView| #[trigger]
                    found.contains(k) <==> table.keys().subrange(0, i as int).contains(k)
                        && k.key == key@,
            decreases table.keys().len() - i,
        {
            let ghost k0 = table.keys()[i as int];
            proof {
                table.lemma_view();
                lemma_next_is_new::<crate::api::Relationship>(table.keys(), i as int);
            }
            if same_text(table.key_at(i).key.as_str(), key) {
                count = count + 1;
                proof {
                    found = found.insert(k0);
                }
            }
            i = i + 1;
        }
        proof {
            table.lemma_view();
            assert(table.keys().subrange(0, i as int) =~= table.keys());
            assert(found =~= rows.dom().filter(|k: RelationshipView| k.key == key@));
        }
        count
    }

    /// How many Relationship definitions name this key as their replacement.
    fn count_relationship_replacements(&self, key: &str) -> (r: usize)
        requires
            self.wf(),
        ensures
            r == relationship_replacement_count(self@, key@),
    {
        let table = &self.relationship_definitions;
        let ghost rows = self@.relationship_definitions;
        let ghost mut found: Set<Seq<char>> = Set::empty();
        let mut count: usize = 0;
        let mut i: usize = 0;
        proof {
            table.lemma_view();
        }
        while i < table.len()
            invariant
                table.wf(),
                rows == table@,
                i <= table.keys().len(),
                count <= i,
                found.finite(),
                count == found.len(),
                forall|k: Seq<char>| #[trigger]
                    found.contains(k) <==> table.keys().subrange(0, i as int).contains(k)
                        && is_text(rows[k].definition.replacement_key, key@),
            decreases table.keys().len() - i,
        {
            let ghost k0 = table.keys()[i as int];
            proof {
                table.lemma_view();
                lemma_next_is_new::<String>(table.keys(), i as int);
            }
            if names(&table.row_at(i).definition.replacement_key, key) {
                count = count + 1;
                proof {
                    found = found.insert(k0);
                }
            }
            i = i + 1;
        }
        proof {
            table.lemma_view();
            assert(table.keys().subrange(0, i as int) =~= table.keys());
            assert(found =~= rows.dom().filter(
                |k: Seq<char>| is_text(rows[k].definition.replacement_key, key@),
            ));
        }
        count
    }

    /// How many facts use a Relationship definition.
    pub fn relationship_definition_usage(&self, key: &str) -> (r: Result<DefinitionUsage, CoreError>)
        requires
            self.wf(),
        ensures
            match r {
                Ok(usage) => relationship_definition_missing(self@, key@) is None && usage.key@ == key@
                    && usage.fact_count == relationship_fact_count(self@, key@),
                Err(e) => relationship_definition_missing(self@, key@) == Some(e@),
            },
    {
        match self.get_relationship_definition(key) {
            Err(e) => Err(e),
            Ok(_) => Ok(
                DefinitionUsage {
                    key: key.to_owned(),
                    fact_count: self.count_relationship_facts(key) as u64,
                },
            ),
        }
    }

    /// Removes a Relationship definition that nothing uses.
    pub fn remove_relationship_definition(&mut self, key: &str) -> (r: Result<Commit, CoreError>)
        requires
            old(self).wf(),
        ensures
            final(self).wf(),
            meets(r, final(self)@, remove_relationship_result(old(self)@, key@)),
            match r {
                Ok(commit) => commit.revision == final(self)@.revision && commit.change_count == 1,
                Err(_) => *final(self) == *old(self),
            },
    {
        let owned_key = key.to_owned();
        if !self.relationship_definitions.contains(&owned_key) {
            return Err(CoreError::DefinitionNotFound(owned_key));
        }
        let uses: u128 = self.count_relationship_facts(key) as u128 + self.count_relationship_replacements(
            key,
        ) as u128;
        if uses > 0 {
            return Err(still_referenced_error(key, uses));
        }
        match self.next_revision() {
            Err(e) => return Err(e),
            Ok(_) => {},
        }
        self.relationship_definitions.remove(&owned_key);
        self.journal_change(
            0,
            ChangeKind::RelationshipDefinitionRemoved,
            None,
            Some(owned_key),
            None,
            None,
        );
        Ok(Commit { revision: self.revision, change_count: 1 })
    }

    /// The Relationship definitions from one place of their order to another.
    pub(crate) fn relationship_definitions_between(&self, from: usize, to: usize) -> (r: Vec<
        RelationshipDefinition,
    >)
        requires
            self.wf(),
            from <= to <= self.relationship_definitions.keys().len(),
        ensures
            relationship_definitions_view(r@) == relationship_definition_list(self@).subrange(
                from as int,
                to as int,
            ),
    {
        let table = &self.relationship_definitions;
        let mut r: Vec<RelationshipDefinition> = Vec::new();
        let mut i: usize = from;
        while i < to
            invariant
                table.wf(),
                from <= i <= to <= table.keys().len(),
                r@.len() == i - from,
                forall|j: int|
                    0 <= j < r@.len() ==> (#[trigger] r@[j])@ == table@[table.keys()[from
                        + j]].definition,
            decreases to - i,
        {
            r.push(table.row_at(i).definition.clone());
            i = i + 1;
        }
        proof {
            table.lemma_view();
            assert(relationship_definitions_view(r@) =~= relationship_definition_list(self@).subrange(
                from as int,
                to as int,
            ));
        }
        r
    }

    /// The Relationship definitions, in the order of their keys.
    pub fn list_relationship_definitions(&self) -> (r: Vec<RelationshipDefinition>)
        requires
            self.wf(),
        ensures
            relationship_definitions_view(r@) == relationship_definition_list(self@),
    {
        let len: usize = self.relationship_definitions.len();
        proof {
            self.relationship_definitions.lemma_view();
            let all = relationship_definition_list(self@);
            assert(all.subrange(0, len as int) =~= all);
        }
        self.relationship_definitions_between(0, len)
    }

    /// A window of the Relationship definitions, in the order of their keys.
    pub fn list_relationship_definitions_page(&self, page: ReadPage) -> (r: Result<
        Vec<RelationshipDefinition>,
        CoreError,
    >)
        requires
            self.wf(),
        ensures
            match r {
                Ok(items) => page_fault(page) is None && relationship_definitions_view(items@) == page_of(
                    relationship_definition_list(self@),
                    page,
                ),
                Err(e) => page_fault(page) == Some(e@),
            },
    {
        match page.sql_offset() {
            Err(e) => Err(e),
            Ok(_) => {
                let (from, to) = window_bounds(
                    page.offset,
                    page.sql_limit() as usize,
                    self.relationship_definitions.len(),
                );
                proof {
                    self.relationship_definitions.lemma_view();
                }
                Ok(self.relationship_definitions_between(from, to))
            },
        }
    }

    /// Updates the labels and the description of a Relationship definition.
    pub fn update_relationship_definition(
        &mut self,
        key: &str,
        update: &RelationshipDefinitionUpdate,
    ) -> (r: Result<RelationshipDefinition, CoreError>)
        requires
            old(self).wf(),
        ensures
            final(self).wf(),
            meets(r, final(self)@, update_relationship_result(old(self)@, key@, *update)),
            match r {
                Ok(definition) => definition@ == updated_relationship(old(self)@, key@, *update),
                Err(_) => *final(self) == *old(self),
            },
    {
        match validate_definition_fields(key, update.forward_label.as_str(), "existing") {
            Err(e) => return Err(e),
            Ok(_) => {},
        }
        let mut definition = match self.get_relationship_definition(key) {
            Err(e) => return Err(e),
            Ok(definition) => definition,
        };
        if definition.version >= i64::MAX as u64 {
            return Err(last_version_error());
        }
        match self.next_revision() {
            Err(e) => return Err(e),
            Ok(_) => {},
        }
        definition.key = key.to_owned();
        definition.forward_label = update.forward_label.clone();
        definition.inverse_label = clone_optional_text(&update.inverse_label);
        definition.description = clone_optional_text(&update.description);
        definition.version = definition.version + 1;
        let mut kept = definition.clone();
        kept.inverse_label = keep_label(&definition.inverse_label);
        self.put_relationship_definition(kept, ChangeKind::RelationshipDefinitionUpdated, None);
        Ok(definition)
    }
}

} // verus!
