//! The failures of Core operations and their categories.
use vstd::prelude::*;
use crate::text::{decimal, decimal_of, join2, join3, join5};

verus! {

/// What kind of failure a [`CoreError`] is.
#[derive(Debug, Clone, Copy, PartialEq, Eq, Structural)]
pub enum CoreErrorCategory {
    NotFound,
    AlreadyExists,
    InvalidId,
    InvalidProperty,
    InvalidPropertyValue,
    InvalidRelationship,
    DefinitionNotFound,
    Conflict,
    StorageUnavailable,
    IntegrityFailure,
    PermissionDenied,
    OperationFailed,
    PostCommitFailure,
}

/// A failed Core operation.
#[derive(Debug)]
pub enum CoreError {
    /// A failed filesystem operation, with what the system said.
    Io { permission_denied: bool, message: String },
    /// A statement that the database refused, with what it said.
    Database(String),
    InvalidNodeId(String),
    NotFound { entity: &'static str, identifier: String },
    AlreadyExists { entity: &'static str, identifier: String },
    InvalidProperty(String),
    InvalidPropertyValue(String),
    InvalidRelationship(String),
    DefinitionNotFound(String),
    Conflict(String),
    PostCommitFailure { revision: u64, follow_up: &'static str, reason: String },
    IndexUnavailable(String),
    UnsupportedSchema { store: &'static str, found: u32, supported: u32 },
    CorruptStore { store: &'static str, reason: String },
    ProtectedStoreUnavailable(String),
    LockPoisoned(&'static str),
    CloseStore { store: &'static str, message: String },
}

/// A failure, its texts taken as sequences of characters.
pub enum ErrorView {
    Io { permission_denied: bool, message: Seq<char> },
    Database(Seq<char>),
    InvalidNodeId(Seq<char>),
    NotFound { entity: Seq<char>, identifier: Seq<char> },
    AlreadyExists { entity: Seq<char>, identifier: Seq<char> },
    InvalidProperty(Seq<char>),
    InvalidPropertyValue(Seq<char>),
    InvalidRelationship(Seq<char>),
    DefinitionNotFound(Seq<char>),
    Conflict(Seq<char>),
    PostCommitFailure { revision: u64, follow_up: Seq<char>, reason: Seq<char> },
    IndexUnavailable(Seq<char>),
    UnsupportedSchema { store: Seq<char>, found: u32, supported: u32 },
    CorruptStore { store: Seq<char>, reason: Seq<char> },
    ProtectedStoreUnavailable(Seq<char>),
    LockPoisoned(Seq<char>),
    CloseStore { store: Seq<char>, message: Seq<char> },
}

impl View for CoreError {
    type V = ErrorView;

    open spec fn view(&self) -> ErrorView {
        match *self {
            CoreError::Io { permission_denied, message } => ErrorView::Io {
                permission_denied,
                message: message@,
            },
            CoreError::Database(m) => ErrorView::Database(m@),
            CoreError::InvalidNodeId(m) => ErrorView::InvalidNodeId(m@),
            CoreError::NotFound { entity, identifier } => ErrorView::NotFound {
                entity: entity@,
                identifier: identifier@,
            },
            CoreError::AlreadyExists { entity, identifier } => ErrorView::AlreadyExists {
                entity: entity@,
                identifier: identifier@,
            },
            CoreError::InvalidProperty(m) => ErrorView::InvalidProperty(m@),
            CoreError::InvalidPropertyValue(m) => ErrorView::InvalidPropertyValue(m@),
            CoreError::InvalidRelationship(m) => ErrorView::InvalidRelationship(m@),
            CoreError::DefinitionNotFound(m) => ErrorView::DefinitionNotFound(m@),
            CoreError::Conflict(m) => ErrorView::Conflict(m@),
            CoreError::PostCommitFailure { revision, follow_up, reason } =>
                ErrorView::PostCommitFailure { revision, follow_up: follow_up@, reason: reason@ },
            CoreError::IndexUnavailable(m) => ErrorView::IndexUnavailable(m@),
            CoreError::UnsupportedSchema { store, found, supported } =>
                ErrorView::UnsupportedSchema { store: store@, found, supported },
            CoreError::CorruptStore { store, reason } => ErrorView::CorruptStore {
                store: store@,
                reason: reason@,
            },
            CoreError::ProtectedStoreUnavailable(m) => ErrorView::ProtectedStoreUnavailable(m@),
            CoreError::LockPoisoned(m) => ErrorView::LockPoisoned(m@),
            CoreError::CloseStore { store, message } => ErrorView::CloseStore {
                store: store@,
                message: message@,
            },
        }
    }
}

/// The category of each failure: a filesystem failure is a refused permission where the system
/// said so, and otherwise a store that cannot be reached.
pub open spec fn category_of(e: ErrorView) -> CoreErrorCategory {
    match e {
        ErrorView::NotFound { .. } => CoreErrorCategory::NotFound,
        ErrorView::AlreadyExists { .. } => CoreErrorCategory::AlreadyExists,
        ErrorView::InvalidNodeId(_) => CoreErrorCategory::InvalidId,
        ErrorView::InvalidProperty(_) => CoreErrorCategory::InvalidProperty,
        ErrorView::InvalidPropertyValue(_) => CoreErrorCategory::InvalidPropertyValue,
        ErrorView::InvalidRelationship(_) => CoreErrorCategory::InvalidRelationship,
        ErrorView::DefinitionNotFound(_) => CoreErrorCategory::DefinitionNotFound,
        ErrorView::Conflict(_) => CoreErrorCategory::Conflict,
        ErrorView::PostCommitFailure { .. } => CoreErrorCategory::PostCommitFailure,
        ErrorView::Io { permission_denied, .. } => if permission_denied {
            CoreErrorCategory::PermissionDenied
        } else {
            CoreErrorCategory::StorageUnavailable
        },
        ErrorView::LockPoisoned(_) => CoreErrorCategory::StorageUnavailable,
        ErrorView::CloseStore { .. } => CoreErrorCategory::StorageUnavailable,
        ErrorView::IndexUnavailable(_) => CoreErrorCategory::StorageUnavailable,
        ErrorView::ProtectedStoreUnavailable(_) => CoreErrorCategory::StorageUnavailable,
        ErrorView::UnsupportedSchema { .. } => CoreErrorCategory::IntegrityFailure,
        ErrorView::CorruptStore { .. } => CoreErrorCategory::IntegrityFailure,
        ErrorView::Database(_) => CoreErrorCategory::OperationFailed,
    }
}

/// The sentence that tells a failure to a reader.
pub open spec fn message_of(e: ErrorView) -> Seq<char> {
    match e {
        ErrorView::Io { message, .. } => "Core filesystem operation failed: "@ + message,
        ErrorView::Database(m) => "Core database operation failed: "@ + m,
        ErrorView::InvalidNodeId(m) => "invalid Genesis Node ID: "@ + m,
        ErrorView::NotFound { entity, identifier } => entity + " not found: "@ + identifier,
        ErrorView::AlreadyExists { entity, identifier } => entity + " already exists: "@
            + identifier,
        ErrorView::InvalidProperty(m) => "invalid property key: "@ + m,
        ErrorView::InvalidPropertyValue(m) => "invalid property value: "@ + m,
        ErrorView::InvalidRelationship(m) => "invalid relationship: "@ + m,
        ErrorView::DefinitionNotFound(m) => "definition not found: "@ + m,
        ErrorView::Conflict(m) => "operation conflicts with current state: "@ + m,
        ErrorView::PostCommitFailure { revision, follow_up, reason } => ("canonical revision "@
            + decimal_of(revision as nat) + " committed, but "@ + follow_up + " failed: "@)
            + reason,
        ErrorView::IndexUnavailable(m) => "Index is unavailable: "@ + m,
        ErrorView::UnsupportedSchema { store, found, supported } => store + " schema version "@
            + decimal_of(found as nat) + " is unsupported; this reader supports version "@
            + decimal_of(supported as nat),
        ErrorView::CorruptStore { store, reason } => store + " failed validation: "@ + reason,
        ErrorView::ProtectedStoreUnavailable(m) => "protected Store is unavailable: "@ + m,
        ErrorView::LockPoisoned(m) => m + " lock is poisoned"@,
        ErrorView::CloseStore { store, message } => "failed to close "@ + store + ": "@ + message,
    }
}

impl Clone for CoreError {
    fn clone(&self) -> (r: CoreError)
        ensures
            r@ == self@,
    {
        match self {
            CoreError::Io { permission_denied, message } => CoreError::Io {
                permission_denied: *permission_denied,
                message: message.clone(),
            },
            CoreError::Database(m) => CoreError::Database(m.clone()),
            CoreError::InvalidNodeId(m) => CoreError::InvalidNodeId(m.clone()),
            CoreError::NotFound { entity, identifier } => CoreError::NotFound {
                entity: *entity,
                identifier: identifier.clone(),
            },
            CoreError::AlreadyExists { entity, identifier } => CoreError::AlreadyExists {
                entity: *entity,
                identifier: identifier.clone(),
            },
            CoreError::InvalidProperty(m) => CoreError::InvalidProperty(m.clone()),
            CoreError::InvalidPropertyValue(m) => CoreError::InvalidPropertyValue(m.clone()),
            CoreError::InvalidRelationship(m) => CoreError::InvalidRelationship(m.clone()),
            CoreError::DefinitionNotFound(m) => CoreError::DefinitionNotFound(m.clone()),
            CoreError::Conflict(m) => CoreError::Conflict(m.clone()),
            CoreError::PostCommitFailure { revision, follow_up, reason } =>
                CoreError::PostCommitFailure {
                    revision: *revision,
                    follow_up: *follow_up,
                    reason: reason.clone(),
                },
            CoreError::IndexUnavailable(m) => CoreError::IndexUnavailable(m.clone()),
            CoreError::UnsupportedSchema { store, found, supported } =>
                CoreError::UnsupportedSchema {
                    store: *store,
                    found: *found,
                    supported: *supported,
                },
            CoreError::CorruptStore { store, reason } => CoreError::CorruptStore {
                store: *store,
                reason: reason.clone(),
            },
            CoreError::ProtectedStoreUnavailable(m) => CoreError::ProtectedStoreUnavailable(
                m.clone(),
            ),
            CoreError::LockPoisoned(m) => CoreError::LockPoisoned(*m),
            CoreError::CloseStore { store, message } => CoreError::CloseStore {
                store: *store,
                message: message.clone(),
            },
        }
    }
}

impl CoreError {
    /// The category of the failure.
    pub fn category(&self) -> (r: CoreErrorCategory)
        ensures
            r == category_of(self@),
    {
        match self {
            CoreError::NotFound { .. } => CoreErrorCategory::NotFound,
            CoreError::AlreadyExists { .. } => CoreErrorCategory::AlreadyExists,
            CoreError::InvalidNodeId(_) => CoreErrorCategory::InvalidId,
            CoreError::InvalidProperty(_) => CoreErrorCategory::InvalidProperty,
            CoreError::InvalidPropertyValue(_) => CoreErrorCategory::InvalidPropertyValue,
            CoreError::InvalidRelationship(_) => CoreErrorCategory::InvalidRelationship,
            CoreError::DefinitionNotFound(_) => CoreErrorCategory::DefinitionNotFound,
            CoreError::Conflict(_) => CoreErrorCategory::Conflict,
            CoreError::PostCommitFailure { .. } => CoreErrorCategory::PostCommitFailure,
            CoreError::Io { permission_denied, .. } => if *permission_denied {
                CoreErrorCategory::PermissionDenied
            } else {
                CoreErrorCategory::StorageUnavailable
            },
            CoreError::LockPoisoned(_) => CoreErrorCategory::StorageUnavailable,
            CoreError::CloseStore { .. } => CoreErrorCategory::StorageUnavailable,
            CoreError::IndexUnavailable(_) => CoreErrorCategory::StorageUnavailable,
            CoreError::ProtectedStoreUnavailable(_) => CoreErrorCategory::StorageUnavailable,
            CoreError::UnsupportedSchema { .. } => CoreErrorCategory::IntegrityFailure,
            CoreError::CorruptStore { .. } => CoreErrorCategory::IntegrityFailure,
            CoreError::Database(_) => CoreErrorCategory::OperationFailed,
        }
    }

    /// The sentence that tells the failure to a reader.
    pub fn to_string(&self) -> (r: String)
        ensures
            r@ == message_of(self@),
    {
        match self {
            CoreError::Io { message, .. } => join2("Core filesystem operation failed: ", message),
            CoreError::Database(m) => join2("Core database operation failed: ", m),
            CoreError::InvalidNodeId(m) => join2("invalid Genesis Node ID: ", m),
            CoreError::NotFound { entity, identifier } => join3(entity, " not found: ", identifier),
            CoreError::AlreadyExists { entity, identifier } => join3(
                entity,
                " already exists: ",
                identifier,
            ),
            CoreError::InvalidProperty(m) => join2("invalid property key: ", m),
            CoreError::InvalidPropertyValue(m) => join2("invalid property value: ", m),
            CoreError::InvalidRelationship(m) => join2("invalid relationship: ", m),
            CoreError::DefinitionNotFound(m) => join2("definition not found: ", m),
            CoreError::Conflict(m) => join2("operation conflicts with current state: ", m),
            CoreError::PostCommitFailure { revision, follow_up, reason } => {
                let revision_text = decimal(*revision as u128);
                let mut r = join5(
                    "canonical revision ",
                    revision_text.as_str(),
                    " committed, but ",
                    follow_up,
                    " failed: ",
                );
                r.append(reason.as_str());
                r
            },
            CoreError::IndexUnavailable(m) => join2("Index is unavailable: ", m),
            CoreError::UnsupportedSchema { store, found, supported } => {
                let found_text = decimal(*found as u128);
                let supported_text = decimal(*supported as u128);
                join5(
                    store,
                    " schema version ",
                    found_text.as_str(),
                    " is unsupported; this reader supports version ",
                    supported_text.as_str(),
                )
            },
            CoreError::CorruptStore { store, reason } => join3(
                store,
                " failed validation: ",
                reason,
            ),
            CoreError::ProtectedStoreUnavailable(m) => join2("protected Store is unavailable: ", m),
            CoreError::LockPoisoned(m) => join2(m, " lock is poisoned"),
            CoreError::CloseStore { store, message } => {
                let mut text = join3("failed to close ", store, ": ");
                text.append(message.as_str());
                text
            },
        }
    }
}

/// A failure that several checks give: something contradicts the current state.
pub fn conflict(message: &str) -> (r: CoreError)
    ensures
        r@ == ErrorView::Conflict(message@),
{
    CoreError::Conflict(message.to_owned())
}

/// A store whose content cannot be right.
pub fn corrupt(store: &'static str, reason: &str) -> (r: CoreError)
    ensures
        r@ == (ErrorView::CorruptStore { store: store@, reason: reason@ }),
{
    CoreError::CorruptStore { store, reason: reason.to_owned() }
}

} // verus!
