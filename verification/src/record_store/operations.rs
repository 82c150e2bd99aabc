//! Creating, changing and reading Nodes, Properties and Relationships.
use vstd::prelude::*;
use crate::api::{
    Commit, IdentityResolution, Mutation, Relationship, RelationshipView,
};
use crate::error::{conflict, CoreError, ErrorView};
use crate::id::NodeId;
use crate::node::{LifecycleState, Node};
use crate::record_store::keys::{key_fault, validate_key, KeyUse};
use crate::record_store::model::{
    changes_view, ChangeKind, ChangeRow, ChangeView, NodeRow, NodeRowView, Present, PropertyRow,
    PropertyRowView, RecordModel, RecordStore, RelationshipRow,
};
use crate::table::Table;
use crate::text::{join3, join5};
use crate::value::{kept_value, kind_of, value_fault, PropertyValue, PropertyValueKind, ValueView};

verus! {

/// Whether an operation did what it should: it succeeded with the expected content, or failed
/// with the expected failure.
pub open spec fn meets<T>(
    r: Result<T, CoreError>,
    after: RecordModel,
    expected: Result<RecordModel, ErrorView>,
) -> bool {
    match (r, expected) {
        (Ok(_), Ok(m)) => after == m,
        (Err(e), Err(fault)) => e@ == fault,
        _ => false,
    }
}

/// How messages name a state.
pub open spec fn state_name(state: LifecycleState) -> Seq<char> {
    match state {
        LifecycleState::Active => "Active"@,
        LifecycleState::Tombstoned => "Tombstoned"@,
    }
}

/// How messages name a kind of values.
pub open spec fn kind_label(kind: PropertyValueKind) -> Seq<char> {
    match kind {
        PropertyValueKind::Null => "Null"@,
        PropertyValueKind::Boolean => "Boolean"@,
        PropertyValueKind::Integer => "Integer"@,
        PropertyValueKind::Real => "Real"@,
        PropertyValueKind::Text => "Text"@,
        PropertyValueKind::Date => "Date"@,
        PropertyValueKind::DateTime => "DateTime"@,
        PropertyValueKind::List => "List"@,
        PropertyValueKind::Structured => "Structured"@,
    }
}

/// How messages name a Relationship.
pub open spec fn relationship_text(r: RelationshipView) -> Seq<char> {
    r.source.text() + " --"@ + r.key + "--> "@ + r.target.text()
}

/// The failure that names a Node that is not there.
pub open spec fn no_node(id: NodeId) -> ErrorView {
    ErrorView::NotFound { entity: "Node"@, identifier: id.text() }
}

/// The failure that names an ID that was never issued.
pub open spec fn never_issued(id: NodeId) -> ErrorView {
    ErrorView::NotFound { entity: "issued Node ID"@, identifier: id.text() }
}

/// The failure that names an ID that was issued before.
pub open spec fn already_issued(id: NodeId) -> ErrorView {
    ErrorView::AlreadyExists { entity: "Issued Node ID"@, identifier: id.text() }
}

/// Why a Node is not in the state that an operation requires.
pub open spec fn node_state_fault(m: RecordModel, id: NodeId, expected: LifecycleState) -> Option<
    ErrorView,
> {
    if !m.nodes.dom().contains(id) {
        Some(no_node(id))
    } else if m.nodes[id].lifecycle_state != expected {
        Some(
            ErrorView::Conflict(
                "Node "@ + id.text() + " is "@ + state_name(m.nodes[id].lifecycle_state)
                    + "; operation requires "@ + state_name(expected),
            ),
        )
    } else {
        None
    }
}

/// Why the definition of a Property key, if there is one, refuses a value of this kind.
pub open spec fn property_definition_fault(
    m: RecordModel,
    key: Seq<char>,
    actual: PropertyValueKind,
) -> Option<ErrorView> {
    if !m.property_definitions.dom().contains(key) {
        None
    } else {
        let definition = m.property_definitions[key].definition;
        if definition.state is Deprecated {
            Some(ErrorView::Conflict("property definition "@ + key + " is deprecated"@))
        } else {
            match definition.expected_value_kind {
                Some(expected) => if expected != actual {
                    Some(
                        ErrorView::InvalidPropertyValue(
                            "property "@ + key + " expects "@ + kind_label(expected)
                                + ", received "@ + kind_label(actual),
                        ),
                    )
                } else {
                    None
                },
                None => None,
            }
        }
    }
}

/// Why the definition of a Relationship key, if there is one, refuses new Relationships.
pub open spec fn relationship_definition_fault(m: RecordModel, key: Seq<char>) -> Option<
    ErrorView,
> {
    if m.relationship_definitions.dom().contains(key)
        && m.relationship_definitions[key].definition.state is Deprecated {
        Some(ErrorView::Conflict("relationship definition "@ + key + " is deprecated"@))
    } else {
        None
    }
}

/// The store at its next revision. The revision is a signed 64-bit number: after the greatest one
/// the database has no next.
pub open spec fn advance(m: RecordModel) -> Result<RecordModel, ErrorView> {
    if m.revision < i64::MAX {
        Ok(RecordModel { revision: (m.revision + 1) as u64, ..m })
    } else {
        Err(
            ErrorView::Database(
                "Invalid column type Real at index: 0, name: current_revision"@,
            ),
        )
    }
}

/// The store with one more entry in its journal, at the current revision.
pub open spec fn journaled(
    m: RecordModel,
    ordinal: u64,
    kind: ChangeKind,
    node_id: Option<NodeId>,
    definition_key: Option<Seq<char>>,
    target: Option<NodeId>,
    replacement_key: Option<Seq<char>>,
) -> RecordModel {
    RecordModel {
        journal: m.journal.push(
            ChangeView {
                revision: m.revision,
                ordinal,
                kind,
                node_id,
                definition_key,
                target,
                replacement_key,
            },
        ),
        ..m
    }
}

/// A new active Node.
pub open spec fn blank_node(revision: u64) -> NodeRowView {
    NodeRowView {
        lifecycle_state: LifecycleState::Active,
        created_revision: revision,
        modified_revision: revision,
        properties: Map::empty(),
    }
}

/// The Nodes with one of them, if it is there, marked as changed at a revision.
pub open spec fn touched(nodes: Map<NodeId, NodeRowView>, id: NodeId, revision: u64) -> Map<
    NodeId,
    NodeRowView,
> {
    if nodes.dom().contains(id) {
        nodes.insert(id, NodeRowView { modified_revision: revision, ..nodes[id] })
    } else {
        nodes
    }
}

/// Creates a blank active Node whose ID is now issued.
pub open spec fn insert_node(m: RecordModel, ordinal: u64, id: NodeId) -> RecordModel {
    journaled(
        RecordModel { nodes: m.nodes.insert(id, blank_node(m.revision)), ..m },
        ordinal,
        ChangeKind::NodeCreated,
        Some(id),
        None,
        None,
        None,
    )
}

pub open spec fn create_node_step(m: RecordModel, ordinal: u64, id: NodeId) -> Result<
    RecordModel,
    ErrorView,
> {
    if m.issued.contains(id) {
        Err(already_issued(id))
    } else {
        Ok(insert_node(RecordModel { issued: m.issued.insert(id), ..m }, ordinal, id))
    }
}

pub open spec fn set_property_step(
    m: RecordModel,
    ordinal: u64,
    id: NodeId,
    key: Seq<char>,
    value: ValueView,
) -> Result<RecordModel, ErrorView> {
    match key_fault(key, KeyUse::Property) {
        Some(fault) => Err(fault),
        None => match value_fault(value) {
            Some(fault) => Err(fault),
            None => match node_state_fault(m, id, LifecycleState::Active) {
                Some(fault) => Err(fault),
                None => match property_definition_fault(m, key, kind_of(value)) {
                    Some(fault) => Err(fault),
                    None => Ok(
                        journaled(
                            RecordModel {
                                nodes: m.nodes.insert(
                                    id,
                                    NodeRowView {
                                        modified_revision: m.revision,
                                        properties: m.nodes[id].properties.insert(
                                            key,
                                            PropertyRowView {
                                                value: kept_value(value),
                                                modified_revision: m.revision,
                                            },
                                        ),
                                        ..m.nodes[id]
                                    },
                                ),
                                ..m
                            },
                            ordinal,
                            ChangeKind::PropertySet,
                            Some(id),
                            Some(key),
                            None,
                            None,
                        ),
                    ),
                },
            },
        },
    }
}

pub open spec fn remove_property_step(m: RecordModel, ordinal: u64, id: NodeId, key: Seq<char>) -> Result<
    RecordModel,
    ErrorView,
> {
    match key_fault(key, KeyUse::Property) {
        Some(fault) => Err(fault),
        None => match node_state_fault(m, id, LifecycleState::Active) {
            Some(fault) => Err(fault),
            None => if !m.nodes[id].properties.dom().contains(key) {
                Err(ErrorView::NotFound { entity: "Property"@, identifier: key })
            } else {
                Ok(
                    journaled(
                        RecordModel {
                            nodes: m.nodes.insert(
                                id,
                                NodeRowView {
                                    modified_revision: m.revision,
                                    properties: m.nodes[id].properties.remove(key),
                                    ..m.nodes[id]
                                },
                            ),
                            ..m
                        },
                        ordinal,
                        ChangeKind::PropertyRemoved,
                        Some(id),
                        Some(key),
                        None,
                        None,
                    ),
                )
            },
        },
    }
}

pub open spec fn add_relationship_step(m: RecordModel, ordinal: u64, r: RelationshipView) -> Result<
    RecordModel,
    ErrorView,
> {
    match key_fault(r.key, KeyUse::Relationship) {
        Some(fault) => Err(fault),
        None => match node_state_fault(m, r.source, LifecycleState::Active) {
            Some(fault) => Err(fault),
            None => match node_state_fault(m, r.target, LifecycleState::Active) {
                Some(fault) => Err(fault),
                None => match relationship_definition_fault(m, r.key) {
                    Some(fault) => Err(fault),
                    None => if m.relationships.dom().contains(r) {
                        Err(
                            ErrorView::AlreadyExists {
                                entity: "Relationship"@,
                                identifier: relationship_text(r),
                            },
                        )
                    } else {
                        Ok(
                            journaled(
                                RecordModel {
                                    relationships: m.relationships.insert(
                                        r,
                                        RelationshipRow {
                                            created_revision: m.revision,
                                            modified_revision: m.revision,
                                        },
                                    ),
                                    nodes: touched(
                                        touched(m.nodes, r.source, m.revision),
                                        r.target,
                                        m.revision,
                                    ),
                                    ..m
                                },
                                ordinal,
                                ChangeKind::RelationshipAdded,
                                Some(r.source),
                                Some(r.key),
                                Some(r.target),
                                None,
                            ),
                        )
                    },
                },
            },
        },
    }
}

pub open spec fn remove_relationship_step(m: RecordModel, ordinal: u64, r: RelationshipView) -> Result<
    RecordModel,
    ErrorView,
> {
    match key_fault(r.key, KeyUse::Relationship) {
        Some(fault) => Err(fault),
        None => if !m.issued.contains(r.source) {
            Err(never_issued(r.source))
        } else if !m.issued.contains(r.target) {
            Err(never_issued(r.target))
        } else if !m.relationships.dom().contains(r) {
            Err(
                ErrorView::NotFound {
                    entity: "Relationship"@,
                    identifier: relationship_text(r),
                },
            )
        } else {
            Ok(
                journaled(
                    RecordModel {
                        relationships: m.relationships.remove(r),
                        nodes: touched(
                            touched(m.nodes, r.source, m.revision),
                            r.target,
                            m.revision,
                        ),
                        ..m
                    },
                    ordinal,
                    ChangeKind::RelationshipRemoved,
                    Some(r.source),
                    Some(r.key),
                    Some(r.target),
                    None,
                ),
            )
        },
    }
}

/// Takes a Node from one state to the other.
pub open spec fn set_state_step(
    m: RecordModel,
    ordinal: u64,
    id: NodeId,
    from: LifecycleState,
    to: LifecycleState,
    kind: ChangeKind,
) -> Result<RecordModel, ErrorView> {
    match node_state_fault(m, id, from) {
        Some(fault) => Err(fault),
        None => Ok(
            journaled(
                RecordModel {
                    nodes: m.nodes.insert(
                        id,
                        NodeRowView {
                            lifecycle_state: to,
                            modified_revision: m.revision,
                            ..m.nodes[id]
                        },
                    ),
                    ..m
                },
                ordinal,
                kind,
                Some(id),
                None,
                None,
                None,
            ),
        ),
    }
}

/// Removes a tombstoned Node with its Properties; its ID stays issued, and the Relationships that
/// name it stay.
pub open spec fn purge_node_step(m: RecordModel, ordinal: u64, id: NodeId) -> Result<
    RecordModel,
    ErrorView,
> {
    match node_state_fault(m, id, LifecycleState::Tombstoned) {
        Some(fault) => Err(fault),
        None => Ok(
            journaled(
                RecordModel { nodes: m.nodes.remove(id), ..m },
                ordinal,
                ChangeKind::NodePurged,
                Some(id),
                None,
                None,
                None,
            ),
        ),
    }
}

/// What one change of a batch makes of the store, which already stands at the batch's revision.
#[verifier::opaque]
pub open spec fn mutate(m: RecordModel, ordinal: u64, mutation: Mutation) -> Result<
    RecordModel,
    ErrorView,
> {
    match mutation {
        Mutation::CreateNode { node_id } => create_node_step(m, ordinal, node_id),
        Mutation::SetProperty { node_id, key, value } => set_property_step(
            m,
            ordinal,
            node_id,
            key@,
            value@,
        ),
        Mutation::RemoveProperty { node_id, key } => remove_property_step(
            m,
            ordinal,
            node_id,
            key@,
        ),
        Mutation::AddRelationship { source, key, target } => add_relationship_step(
            m,
            ordinal,
            RelationshipView { source, key: key@, target },
        ),
        Mutation::RemoveRelationship { source, key, target } => remove_relationship_step(
            m,
            ordinal,
            RelationshipView { source, key: key@, target },
        ),
        Mutation::TombstoneNode { node_id } => set_state_step(
            m,
            ordinal,
            node_id,
            LifecycleState::Active,
            LifecycleState::Tombstoned,
            ChangeKind::NodeTombstoned,
        ),
        Mutation::RestoreNode { node_id } => set_state_step(
            m,
            ordinal,
            node_id,
            LifecycleState::Tombstoned,
            LifecycleState::Active,
            ChangeKind::NodeRestored,
        ),
        Mutation::PurgeNode { node_id } => purge_node_step(m, ordinal, node_id),
    }
}

/// What the first `n` changes of a batch make of the store, one after the other; the first one
/// that fails fails them all.
pub open spec fn mutate_all(m: RecordModel, mutations: Seq<Mutation>, n: nat) -> Result<
    RecordModel,
    ErrorView,
>
    decreases n,
{
    if n == 0 || n > mutations.len() {
        Ok(m)
    } else {
        match mutate_all(m, mutations, (n - 1) as nat) {
            Err(fault) => Err(fault),
            Ok(k) => mutate(k, (n - 1) as u64, mutations[n - 1]),
        }
    }
}

/// What a batch makes of the store: all of its changes, at one new revision.
pub open spec fn batch_result(m: RecordModel, mutations: Seq<Mutation>) -> Result<
    RecordModel,
    ErrorView,
> {
    if mutations.len() == 0 {
        Err(ErrorView::Conflict("an atomic mutation batch cannot be empty"@))
    } else {
        match advance(m) {
            Err(fault) => Err(fault),
            Ok(next) => mutate_all(next, mutations, mutations.len()),
        }
    }
}

/// What creating one Node makes of the store.
pub open spec fn create_result(m: RecordModel, id: NodeId) -> Result<RecordModel, ErrorView> {
    if m.issued.contains(id) {
        Err(already_issued(id))
    } else {
        match advance(m) {
            Err(fault) => Err(fault),
            Ok(next) => create_node_step(next, 0, id),
        }
    }
}

/// The issued IDs after the first `n` of these are issued too; the first that was issued before
/// fails them all.
pub open spec fn reserve_all(issued: Set<NodeId>, ids: Seq<NodeId>, n: nat) -> Result<
    Set<NodeId>,
    ErrorView,
>
    decreases n,
{
    if n == 0 || n > ids.len() {
        Ok(issued)
    } else {
        match reserve_all(issued, ids, (n - 1) as nat) {
            Err(fault) => Err(fault),
            Ok(now) => if now.contains(ids[n - 1]) {
                Err(already_issued(ids[n - 1]))
            } else {
                Ok(now.insert(ids[n - 1]))
            },
        }
    }
}

/// The store after the first `n` of these Nodes are created.
pub open spec fn insert_all(m: RecordModel, ids: Seq<NodeId>, n: nat) -> RecordModel
    decreases n,
{
    if n == 0 || n > ids.len() {
        m
    } else {
        insert_node(insert_all(m, ids, (n - 1) as nat), (n - 1) as u64, ids[n - 1])
    }
}

/// What creating several Nodes makes of the store: all of them at one new revision.
pub open spec fn create_all_result(m: RecordModel, ids: Seq<NodeId>) -> Result<
    RecordModel,
    ErrorView,
> {
    if ids.len() == 0 {
        Err(ErrorView::Conflict("the Node batch size must be greater than zero"@))
    } else {
        match reserve_all(m.issued, ids, ids.len()) {
            Err(fault) => Err(fault),
            Ok(issued) => match advance(m) {
                Err(fault) => Err(fault),
                Ok(next) => Ok(insert_all(RecordModel { issued, ..next }, ids, ids.len())),
            },
        }
    }
}

/// What an ID stands for: an active or a tombstoned Node, one that is gone, or none at all.
pub open spec fn resolution(m: RecordModel, id: NodeId) -> IdentityResolution {
    if m.nodes.dom().contains(id) {
        match m.nodes[id].lifecycle_state {
            LifecycleState::Active => IdentityResolution::Active,
            LifecycleState::Tombstoned => IdentityResolution::Tombstoned,
        }
    } else if m.issued.contains(id) {
        IdentityResolution::Retired
    } else {
        IdentityResolution::NeverIssued
    }
}

fn state_text(state: LifecycleState) -> (r: &'static str)
    ensures
        r@ == state_name(state),
{
    match state {
        LifecycleState::Active => "Active",
        LifecycleState::Tombstoned => "Tombstoned",
    }
}

fn kind_text(kind: PropertyValueKind) -> (r: &'static str)
    ensures
        r@ == kind_label(kind),
{
    match kind {
        PropertyValueKind::Null => "Null",
        PropertyValueKind::Boolean => "Boolean",
        PropertyValueKind::Integer => "Integer",
        PropertyValueKind::Real => "Real",
        PropertyValueKind::Text => "Text",
        PropertyValueKind::Date => "Date",
        PropertyValueKind::DateTime => "DateTime",
        PropertyValueKind::List => "List",
        PropertyValueKind::Structured => "Structured",
    }
}

/// The failure that names something that is not there.
pub(crate) fn not_found(entity: &'static str, identifier: String) -> (r: CoreError)
    ensures
        r@ == (ErrorView::NotFound { entity: entity@, identifier: identifier@ }),
{
    CoreError::NotFound { entity, identifier }
}

/// The failure that names something that is there already.
pub(crate) fn already_exists(entity: &'static str, identifier: String) -> (r: CoreError)
    ensures
        r@ == (ErrorView::AlreadyExists { entity: entity@, identifier: identifier@ }),
{
    CoreError::AlreadyExists { entity, identifier }
}

fn relationship_name(r: &Relationship) -> (text: String)
    ensures
        text@ == relationship_text(r@),
{
    let source = r.source.to_string();
    let target = r.target.to_string();
    join5(source.as_str(), " --", r.key.as_str(), "--> ", target.as_str())
}

impl RecordStore {
    /// Refuses an ID that was never issued.
    pub(crate) fn require_issued_id(&self, id: NodeId) -> (r: Result<(), CoreError>)
        requires
            self.wf(),
        ensures
            match r {
                Ok(_) => self@.issued.contains(id),
                Err(e) => !self@.issued.contains(id) && e@ == never_issued(id),
            },
    {
        if self.issued.contains(&id) {
            Ok(())
        } else {
            Err(not_found("issued Node ID", id.to_string()))
        }
    }

    /// Refuses an ID that has no Node.
    pub(crate) fn require_node(&self, id: NodeId) -> (r: Result<&NodeRow, CoreError>)
        requires
            self.wf(),
        ensures
            match r {
                Ok(row) => self@.nodes.dom().contains(id) && row@ == self@.nodes[id]
                    && row.properties.wf(),
                Err(e) => !self@.nodes.dom().contains(id) && e@ == no_node(id),
            },
    {
        match self.nodes.get(&id) {
            Some(row) => Ok(row),
            None => Err(not_found("Node", id.to_string())),
        }
    }

    /// A copy of the row of a Node that is in the required state.
    fn require_node_state(&self, id: NodeId, expected: LifecycleState) -> (r: Result<
        NodeRow,
        CoreError,
    >)
        requires
            self.wf(),
        ensures
            match r {
                Ok(row) => node_state_fault(self@, id, expected) is None && row@
                    == self@.nodes[id] && row.properties.wf(),
                Err(e) => node_state_fault(self@, id, expected) == Some(e@),
            },
    {
        match self.require_node(id) {
            Err(e) => Err(e),
            Ok(row) => {
                if row.lifecycle_state != expected {
                    let id_text = id.to_string();
                    let mut message = join5(
                        "Node ",
                        id_text.as_str(),
                        " is ",
                        state_text(row.lifecycle_state),
                        "; operation requires ",
                    );
                    message.append(state_text(expected));
                    Err(CoreError::Conflict(message))
                } else {
                    Ok(
                        NodeRow {
                            lifecycle_state: row.lifecycle_state,
                            created_revision: row.created_revision,
                            modified_revision: row.modified_revision,
                            properties: row.properties.copy(),
                        },
                    )
                }
            },
        }
    }

    /// Refuses a value that the definition of its key does not allow.
    fn validate_property_definition(&self, key: &String, actual: PropertyValueKind) -> (r: Result<
        (),
        CoreError,
    >)
        requires
            self.wf(),
        ensures
            match r {
                Ok(_) => property_definition_fault(self@, key@, actual) is None,
                Err(e) => property_definition_fault(self@, key@, actual) == Some(e@),
            },
    {
        match self.property_definitions.get(key) {
            None => Ok(()),
            Some(row) => {
                if row.definition.state == crate::api::DefinitionState::Deprecated {
                    return Err(
                        CoreError::Conflict(
                            join3("property definition ", key.as_str(), " is deprecated"),
                        ),
                    );
                }
                match row.definition.expected_value_kind {
                    None => Ok(()),
                    Some(expected) => if expected != actual {
                        let mut message = join5(
                            "property ",
                            key.as_str(),
                            " expects ",
                            kind_text(expected),
                            ", received ",
                        );
                        message.append(kind_text(actual));
                        Err(CoreError::InvalidPropertyValue(message))
                    } else {
                        Ok(())
                    },
                }
            },
        }
    }

    /// Refuses a Relationship whose definition is deprecated.
    fn validate_relationship_definition(&self, key: &String) -> (r: Result<(), CoreError>)
        requires
            self.wf(),
        ensures
            match r {
                Ok(_) => relationship_definition_fault(self@, key@) is None,
                Err(e) => relationship_definition_fault(self@, key@) == Some(e@),
            },
    {
        match self.relationship_definitions.get(key) {
            None => Ok(()),
            Some(row) => if row.definition.state == crate::api::DefinitionState::Deprecated {
                Err(
                    CoreError::Conflict(
                        join3("relationship definition ", key.as_str(), " is deprecated"),
                    ),
                )
            } else {
                Ok(())
            },
        }
    }

    /// Takes the store to its next revision.
    pub(crate) fn next_revision(&mut self) -> (r: Result<(), CoreError>)
        requires
            old(self).wf(),
        ensures
            final(self).wf(),
            meets(r, final(self)@, advance(old(self)@)),
            r is Err ==> *final(self) == *old(self),
    {
        if self.revision < i64::MAX as u64 {
            self.revision = self.revision + 1;
            Ok(())
        } else {
            Err(
                CoreError::Database(
                    "Invalid column type Real at index: 0, name: current_revision".to_owned(),
                ),
            )
        }
    }

    /// Enters a change in the journal.
    pub(crate) fn journal_change(
        &mut self,
        ordinal: u64,
        kind: ChangeKind,
        node_id: Option<NodeId>,
        definition_key: Option<String>,
        target: Option<NodeId>,
        replacement_key: Option<String>,
    )
        requires
            old(self).wf(),
        ensures
            final(self).wf(),
            final(self)@ == journaled(
                old(self)@,
                ordinal,
                kind,
                node_id,
                crate::api::optional_text(definition_key),
                target,
                crate::api::optional_text(replacement_key),
            ),
    {
        let ghost before = self.journal@;
        let change = ChangeRow {
            revision: self.revision,
            ordinal,
            kind,
            node_id,
            definition_key,
            target,
            replacement_key,
        };
        self.journal.push(change);
        proof {
            assert(changes_view(self.journal@) =~= changes_view(before).push(change@));
        }
    }

    /// Marks a Node, if it is there, as changed at the current revision.
    fn touch(&mut self, id: NodeId)
        requires
            old(self).wf(),
        ensures
            final(self).wf(),
            final(self)@ == (RecordModel {
                nodes: touched(old(self)@.nodes, id, old(self)@.revision),
                ..old(self)@
            }),
    {
        let changed = match self.nodes.get(&id) {
            None => None,
            Some(row) => Some(
                NodeRow {
                    lifecycle_state: row.lifecycle_state,
                    created_revision: row.created_revision,
                    modified_revision: self.revision,
                    properties: row.properties.copy(),
                },
            ),
        };
        match changed {
            None => {},
            Some(row) => {
                self.nodes.insert(id, row);
            },
        }
    }

    fn insert_blank_node(&mut self, ordinal: u64, id: NodeId)
        requires
            old(self).wf(),
            old(self)@.issued.contains(id),
        ensures
            final(self).wf(),
            final(self)@ == insert_node(old(self)@, ordinal, id),
    {
        let row = NodeRow {
            lifecycle_state: LifecycleState::Active,
            created_revision: self.revision,
            modified_revision: self.revision,
            properties: Table::new(),
        };
        self.nodes.insert(id, row);
        self.journal_change(ordinal, ChangeKind::NodeCreated, Some(id), None, None, None);
    }

    /// Issues an ID, unless it was issued before.
    fn reserve_node_id(&mut self, id: NodeId) -> (r: Result<(), CoreError>)
        requires
            old(self).wf(),
        ensures
            final(self).wf(),
            match r {
                Ok(_) => !old(self)@.issued.contains(id) && final(self)@ == (RecordModel {
                    issued: old(self)@.issued.insert(id),
                    ..old(self)@
                }),
                Err(e) => old(self)@.issued.contains(id) && e@ == already_issued(id)
                    && *final(self) == *old(self),
            },
    {
        if self.issued.contains(&id) {
            Err(already_exists("Issued Node ID", id.to_string()))
        } else {
            let ghost before = self.issued@;
            self.issued.insert(id, Present);
            proof {
                assert(self.issued@.dom() =~= before.dom().insert(id));
            }
            Ok(())
        }
    }

    fn apply_create_node(&mut self, ordinal: u64, id: NodeId) -> (r: Result<(), CoreError>)
        requires
            old(self).wf(),
        ensures
            final(self).wf(),
            meets(r, final(self)@, create_node_step(old(self)@, ordinal, id)),
    {
        match self.reserve_node_id(id) {
            Err(e) => Err(e),
            Ok(_) => {
                self.insert_blank_node(ordinal, id);
                Ok(())
            },
        }
    }

    fn apply_set_property(
        &mut self,
        ordinal: u64,
        id: NodeId,
        key: &String,
        value: &PropertyValue,
    ) -> (r: Result<(), CoreError>)
        requires
            old(self).wf(),
        ensures
            final(self).wf(),
            meets(r, final(self)@, set_property_step(old(self)@, ordinal, id, key@, value@)),
    {
        match validate_key(key.as_str(), KeyUse::Property) {
            Err(e) => return Err(e),
            Ok(_) => {},
        }
        match value.validate() {
            Err(e) => return Err(e),
            Ok(_) => {},
        }
        let mut row = match self.require_node_state(id, LifecycleState::Active) {
            Err(e) => return Err(e),
            Ok(row) => row,
        };
        match self.validate_property_definition(key, value.kind()) {
            Err(e) => return Err(e),
            Ok(_) => {},
        }
        row.properties.insert(
            key.clone(),
            PropertyRow { value: value.kept(), modified_revision: self.revision },
        );
        row.modified_revision = self.revision;
        self.nodes.insert(id, row);
        self.journal_change(
            ordinal,
            ChangeKind::PropertySet,
            Some(id),
            Some(key.clone()),
            None,
            None,
        );
        Ok(())
    }

    fn apply_remove_property(&mut self, ordinal: u64, id: NodeId, key: &String) -> (r: Result<
        (),
        CoreError,
    >)
        requires
            old(self).wf(),
        ensures
            final(self).wf(),
            meets(r, final(self)@, remove_property_step(old(self)@, ordinal, id, key@)),
    {
        match validate_key(key.as_str(), KeyUse::Property) {
            Err(e) => return Err(e),
            Ok(_) => {},
        }
        let mut row = match self.require_node_state(id, LifecycleState::Active) {
            Err(e) => return Err(e),
            Ok(row) => row,
        };
        if !row.properties.remove(key) {
            return Err(not_found("Property", key.clone()));
        }
        row.modified_revision = self.revision;
        self.nodes.insert(id, row);
        self.journal_change(
            ordinal,
            ChangeKind::PropertyRemoved,
            Some(id),
            Some(key.clone()),
            None,
            None,
        );
        Ok(())
    }

    fn apply_add_relationship(&mut self, ordinal: u64, relationship: &Relationship) -> (r: Result<
        (),
        CoreError,
    >)
        requires
            old(self).wf(),
        ensures
            final(self).wf(),
            meets(r, final(self)@, add_relationship_step(old(self)@, ordinal, relationship@)),
    {
        match validate_key(relationship.key.as_str(), KeyUse::Relationship) {
            Err(e) => return Err(e),
            Ok(_) => {},
        }
        match self.require_node_state(relationship.source, LifecycleState::Active) {
            Err(e) => return Err(e),
            Ok(_) => {},
        }
        match self.require_node_state(relationship.target, LifecycleState::Active) {
            Err(e) => return Err(e),
            Ok(_) => {},
        }
        match self.validate_relationship_definition(&relationship.key) {
            Err(e) => return Err(e),
            Ok(_) => {},
        }
        if self.relationships.contains(relationship) {
            return Err(already_exists("Relationship", relationship_name(relationship)));
        }
        self.relationships.insert(
            relationship.clone(),
            RelationshipRow {
                created_revision: self.revision,
                modified_revision: self.revision,
            },
        );
        self.touch(relationship.source);
        self.touch(relationship.target);
        self.journal_change(
            ordinal,
            ChangeKind::RelationshipAdded,
            Some(relationship.source),
            Some(relationship.key.clone()),
            Some(relationship.target),
            None,
        );
        Ok(())
    }

    fn apply_remove_relationship(&mut self, ordinal: u64, relationship: &Relationship) -> (r: Result<
        (),
        CoreError,
    >)
        requires
            old(self).wf(),
        ensures
            final(self).wf(),
            meets(r, final(self)@, remove_relationship_step(old(self)@, ordinal, relationship@)),
    {
        match validate_key(relationship.key.as_str(), KeyUse::Relationship) {
            Err(e) => return Err(e),
            Ok(_) => {},
        }
        match self.require_issued_id(relationship.source) {
            Err(e) => return Err(e),
            Ok(_) => {},
        }
        match self.require_issued_id(relationship.target) {
            Err(e) => return Err(e),
            Ok(_) => {},
        }
        if !self.relationships.remove(relationship) {
            return Err(not_found("Relationship", relationship_name(relationship)));
        }
        self.touch(relationship.source);
        self.touch(relationship.target);
        self.journal_change(
            ordinal,
            ChangeKind::RelationshipRemoved,
            Some(relationship.source),
            Some(relationship.key.clone()),
            Some(relationship.target),
            None,
        );
        Ok(())
    }

    fn apply_state(
        &mut self,
        ordinal: u64,
        id: NodeId,
        from: LifecycleState,
        to: LifecycleState,
        kind: ChangeKind,
    ) -> (r: Result<(), CoreError>)
        requires
            old(self).wf(),
        ensures
            final(self).wf(),
            meets(r, final(self)@, set_state_step(old(self)@, ordinal, id, from, to, kind)),
    {
        let mut row = match self.require_node_state(id, from) {
            Err(e) => return Err(e),
            Ok(row) => row,
        };
        row.lifecycle_state = to;
        row.modified_revision = self.revision;
        self.nodes.insert(id, row);
        self.journal_change(ordinal, kind, Some(id), None, None, None);
        Ok(())
    }

    fn apply_purge_node(&mut self, ordinal: u64, id: NodeId) -> (r: Result<(), CoreError>)
        requires
            old(self).wf(),
        ensures
            final(self).wf(),
            meets(r, final(self)@, purge_node_step(old(self)@, ordinal, id)),
    {
        match self.require_node_state(id, LifecycleState::Tombstoned) {
            Err(e) => return Err(e),
            Ok(_) => {},
        }
        self.journal_change(ordinal, ChangeKind::NodePurged, Some(id), None, None, None);
        self.nodes.remove(&id);
        Ok(())
    }

    /// Applies one change of a batch.
    fn apply_mutation(&mut self, ordinal: u64, mutation: &Mutation) -> (r: Result<(), CoreError>)
        requires
            old(self).wf(),
        ensures
            final(self).wf(),
            meets(r, final(self)@, mutate(old(self)@, ordinal, *mutation)),
    {
        proof {
            reveal(mutate);
        }
        match mutation {
            Mutation::CreateNode { node_id } => self.apply_create_node(ordinal, *node_id),
            Mutation::SetProperty { node_id, key, value } => self.apply_set_property(
                ordinal,
                *node_id,
                key,
                value,
            ),
            Mutation::RemoveProperty { node_id, key } => self.apply_remove_property(
                ordinal,
                *node_id,
                key,
            ),
            Mutation::AddRelationship { source, key, target } => {
                let relationship = Relationship {
                    source: *source,
                    key: key.clone(),
                    target: *target,
                };
                self.apply_add_relationship(ordinal, &relationship)
            },
            Mutation::RemoveRelationship { source, key, target } => {
                let relationship = Relationship {
                    source: *source,
                    key: key.clone(),
                    target: *target,
                };
                self.apply_remove_relationship(ordinal, &relationship)
            },
            Mutation::TombstoneNode { node_id } => self.apply_state(
                ordinal,
                *node_id,
                LifecycleState::Active,
                LifecycleState::Tombstoned,
                ChangeKind::NodeTombstoned,
            ),
            Mutation::RestoreNode { node_id } => self.apply_state(
                ordinal,
                *node_id,
                LifecycleState::Tombstoned,
                LifecycleState::Active,
                ChangeKind::NodeRestored,
            ),
            Mutation::PurgeNode { node_id } => self.apply_purge_node(ordinal, *node_id),
        }
    }

    /// Applies a batch of changes as one revision, or, where any of them fails, none of them.
    pub fn apply_batch(&mut self, mutations: &[Mutation]) -> (r: Result<Commit, CoreError>)
        requires
            old(self).wf(),
        ensures
            final(self).wf(),
            meets(r, final(self)@, batch_result(old(self)@, mutations@)),
            match r {
                Ok(commit) => commit.revision == final(self)@.revision && commit.change_count
                    == mutations@.len(),
                Err(_) => *final(self) == *old(self),
            },
    {
        if mutations.len() == 0 {
            return Err(conflict("an atomic mutation batch cannot be empty"));
        }
        let mut work = self.copy();
        match work.next_revision() {
            Err(e) => return Err(e),
            Ok(_) => {},
        }
        let ghost begun = work@;
        let mut i: usize = 0;
        while i < mutations.len()
            invariant
                *self == *old(self),
                self.wf(),
                work.wf(),
                i <= mutations@.len(),
                mutations@.len() > 0,
                advance(self@) == Ok::<RecordModel, ErrorView>(begun),
                mutate_all(begun, mutations@, i as nat) == Ok::<RecordModel, ErrorView>(work@),
            decreases mutations@.len() - i,
        {
            match work.apply_mutation(i as u64, &mutations[i]) {
                Err(e) => {
                    proof {
                        lemma_mutate_all_fails(
                            begun,
                            mutations@,
                            (i + 1) as nat,
                            mutations@.len(),
                        );
                    }
                    return Err(e);
                },
                Ok(_) => {},
            }
            i = i + 1;
        }
        let commit = Commit { revision: work.revision, change_count: mutations.len() };
        *self = work;
        Ok(commit)
    }

    /// Creates an active Node with a new ID. Which ID rests on the clock and on chance.
    pub fn create_node(&mut self) -> (r: Result<Node, CoreError>)
        requires
            old(self).wf(),
        ensures
            final(self).wf(),
            exists|id: NodeId| id.valid() && meets(r, final(self)@, create_result(old(self)@, id))
                && (r is Ok ==> r->Ok_0.id == id),
            match r {
                Ok(node) => node.lifecycle_state == LifecycleState::Active,
                Err(_) => *final(self) == *old(self),
            },
    {
        let node = Node::blank();
        self.create_node_with_id(node.id)
    }

    /// Creates an active Node with this ID.
    pub fn create_node_with_id(&mut self, node_id: NodeId) -> (r: Result<Node, CoreError>)
        requires
            old(self).wf(),
        ensures
            final(self).wf(),
            meets(r, final(self)@, create_result(old(self)@, node_id)),
            match r {
                Ok(node) => node.id == node_id && node.lifecycle_state == LifecycleState::Active,
                Err(_) => *final(self) == *old(self),
            },
    {
        if self.issued.contains(&node_id) {
            return Err(already_exists("Issued Node ID", node_id.to_string()));
        }
        match self.next_revision() {
            Err(e) => return Err(e),
            Ok(_) => {},
        }
        let _ = self.apply_create_node(0, node_id);
        Ok(Node { id: node_id, lifecycle_state: LifecycleState::Active })
    }

    /// Creates several active Nodes with new IDs, as one revision. Which IDs rests on the clock
    /// and on chance.
    pub fn create_nodes(&mut self, count: usize) -> (r: Result<Vec<Node>, CoreError>)
        requires
            old(self).wf(),
        ensures
            final(self).wf(),
            exists|ids: Seq<NodeId>|
                ids.len() == count && meets(r, final(self)@, create_all_result(old(self)@, ids))
                    && (r is Ok ==> active_nodes(r->Ok_0@, ids)),
            r is Err ==> *final(self) == *old(self),
    {
        let mut ids: Vec<NodeId> = Vec::new();
        let mut i: usize = 0;
        while i < count
            invariant
                i <= count,
                ids@.len() == i,
            decreases count - i,
        {
            ids.push(NodeId::new());
            i = i + 1;
        }
        self.create_nodes_with_ids(&ids)
    }

    /// Creates active Nodes with these IDs, as one revision.
    pub fn create_nodes_with_ids(&mut self, ids: &Vec<NodeId>) -> (r: Result<Vec<Node>, CoreError>)
        requires
            old(self).wf(),
        ensures
            final(self).wf(),
            meets(r, final(self)@, create_all_result(old(self)@, ids@)),
            match r {
                Ok(nodes) => active_nodes(nodes@, ids@),
                Err(_) => *final(self) == *old(self),
            },
    {
        if ids.len() == 0 {
            return Err(conflict("the Node batch size must be greater than zero"));
        }
        let mut work = self.copy();
        let mut i: usize = 0;
        while i < ids.len()
            invariant
                *self == *old(self),
                self.wf(),
                work.wf(),
                i <= ids@.len(),
                ids@.len() > 0,
                reserve_all(self@.issued, ids@, i as nat) == Ok::<Set<NodeId>, ErrorView>(
                    work@.issued,
                ),
                work@ == (RecordModel { issued: work@.issued, ..self@ }),
                forall|j: int| 0 <= j < i ==> work@.issued.contains(#[trigger] ids@[j]),
            decreases ids@.len() - i,
        {
            match work.reserve_node_id(ids[i]) {
                Err(e) => {
                    proof {
                        lemma_reserve_all_fails(
                            self@.issued,
                            ids@,
                            (i + 1) as nat,
                            ids@.len(),
                        );
                    }
                    return Err(e);
                },
                Ok(_) => {},
            }
            i = i + 1;
        }
        match work.next_revision() {
            Err(e) => return Err(e),
            Ok(_) => {},
        }
        let ghost begun = work@;
        let mut nodes: Vec<Node> = Vec::new();
        let mut k: usize = 0;
        while k < ids.len()
            invariant
                work.wf(),
                k <= ids@.len(),
                work@ == insert_all(begun, ids@, k as nat),
                work@.issued == begun.issued,
                forall|j: int| 0 <= j < ids@.len() ==> begun.issued.contains(#[trigger] ids@[j]),
                active_nodes(nodes@, ids@.subrange(0, k as int)),
            decreases ids@.len() - k,
        {
            work.insert_blank_node(k as u64, ids[k]);
            nodes.push(Node { id: ids[k], lifecycle_state: LifecycleState::Active });
            k = k + 1;
        }
        proof {
            assert(ids@.subrange(0, k as int) =~= ids@);
        }
        *self = work;
        Ok(nodes)
    }

    /// The Node of an ID.
    pub fn get_node(&self, id: NodeId) -> (r: Result<Node, CoreError>)
        requires
            self.wf(),
        ensures
            match r {
                Ok(node) => self@.nodes.dom().contains(id) && node.id == id
                    && node.lifecycle_state == self@.nodes[id].lifecycle_state,
                Err(e) => !self@.nodes.dom().contains(id) && e@ == no_node(id),
            },
            node_answers(r, self@, id),
    {
        match self.require_node(id) {
            Err(e) => Err(e),
            Ok(row) => Ok(Node { id, lifecycle_state: row.lifecycle_state }),
        }
    }

    /// What an ID stands for.
    pub fn resolve_identity(&self, id: NodeId) -> (r: IdentityResolution)
        requires
            self.wf(),
        ensures
            r == resolution(self@, id),
    {
        match self.nodes.get(&id) {
            Some(row) => match row.lifecycle_state {
                LifecycleState::Active => IdentityResolution::Active,
                LifecycleState::Tombstoned => IdentityResolution::Tombstoned,
            },
            None => if self.issued.contains(&id) {
                IdentityResolution::Retired
            } else {
                IdentityResolution::NeverIssued
            },
        }
    }

    /// The value that a Node has for a Property key, if it has one.
    pub fn get_property(&self, node_id: NodeId, key: &str) -> (r: Result<
        Option<PropertyValue>,
        CoreError,
    >)
        requires
            self.wf(),
        ensures
            match r {
                Err(e) => match key_fault(key@, KeyUse::Property) {
                    Some(fault) => e@ == fault,
                    None => !self@.nodes.dom().contains(node_id) && e@ == no_node(node_id),
                },
                Ok(found) => key_fault(key@, KeyUse::Property) is None
                    && self@.nodes.dom().contains(node_id) && match found {
                    Some(value) => self@.nodes[node_id].properties.dom().contains(key@) && value@
                        == self@.nodes[node_id].properties[key@].value,
                    None => !self@.nodes[node_id].properties.dom().contains(key@),
                },
            },
            property_answers(r, self@, node_id, key@),
    {
        match validate_key(key, KeyUse::Property) {
            Err(e) => return Err(e),
            Ok(_) => {},
        }
        match self.require_node(node_id) {
            Err(e) => Err(e),
            Ok(row) => match row.properties.get(&key.to_owned()) {
                Some(property) => Ok(Some(property.value.clone())),
                None => Ok(None),
            },
        }
    }
}

/// Whether a Node was read as it stands.
pub open spec fn node_answers(r: Result<Node, CoreError>, m: RecordModel, id: NodeId) -> bool {
    match r {
        Ok(node) => node.id == id && m.nodes.dom().contains(id) && node.lifecycle_state
            == m.nodes[id].lifecycle_state,
        Err(e) => e@ == no_node(id) && !m.nodes.dom().contains(id),
    }
}

/// Whether a Property was read as it stands.
pub open spec fn property_answers(
    r: Result<Option<PropertyValue>, CoreError>,
    m: RecordModel,
    id: NodeId,
    key: Seq<char>,
) -> bool {
    match r {
        Ok(Some(value)) => key_fault(key, KeyUse::Property) is None && m.nodes.dom().contains(id)
            && m.nodes[id].properties.dom().contains(key) && m.nodes[id].properties[key].value
            == value@,
        Ok(None) => key_fault(key, KeyUse::Property) is None && m.nodes.dom().contains(id)
            && !m.nodes[id].properties.dom().contains(key),
        Err(e) => match key_fault(key, KeyUse::Property) {
            Some(fault) => e@ == fault,
            None => e@ == no_node(id) && !m.nodes.dom().contains(id),
        },
    }
}

/// Whether these are active Nodes with these IDs.
pub open spec fn active_nodes(nodes: Seq<Node>, ids: Seq<NodeId>) -> bool {
    &&& nodes.len() == ids.len()
    &&& forall|i: int|
        0 <= i < ids.len() ==> (#[trigger] nodes[i]).id == ids[i] && nodes[i].lifecycle_state
            == LifecycleState::Active
}

proof fn lemma_mutate_all_fails(m: RecordModel, mutations: Seq<Mutation>, n: nat, all: nat)
    requires
        n <= all <= mutations.len(),
        mutate_all(m, mutations, n) is Err,
    ensures
        mutate_all(m, mutations, all) == mutate_all(m, mutations, n),
    decreases all,
{
    if n < all {
        lemma_mutate_all_fails(m, mutations, n, (all - 1) as nat);
    }
}

proof fn lemma_reserve_all_fails(issued: Set<NodeId>, ids: Seq<NodeId>, n: nat, all: nat)
    requires
        n <= all <= ids.len(),
        reserve_all(issued, ids, n) is Err,
    ensures
        reserve_all(issued, ids, all) == reserve_all(issued, ids, n),
    decreases all,
{
    if n < all {
        lemma_reserve_all_fails(issued, ids, n, (all - 1) as nat);
    }
}

} // verus!
