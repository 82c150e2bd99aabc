//! The values that Core operations take and return, and the tokens of keyset traversal.
use vstd::prelude::*;
use crate::error::{conflict, CoreError, ErrorView};
use crate::id::NodeId;
use crate::table::TableRow;
use crate::value::{PropertyValue, PropertyValueKind};

verus! {

/// The characters of an optional text.
pub open spec fn optional_text(text: Option<String>) -> Option<Seq<char>> {
    match text {
        Some(t) => Some(t@),
        None => None,
    }
}

/// The characters of a run of texts.
pub open spec fn texts_view(texts: Seq<String>) -> Seq<Seq<char>> {
    Seq::new(texts.len(), |i: int| texts[i]@)
}

/// The same optional text.
pub fn clone_optional_text(text: &Option<String>) -> (r: Option<String>)
    ensures
        optional_text(r) == optional_text(*text),
{
    match text {
        Some(t) => Some(t.clone()),
        None => None,
    }
}

/// Whether new facts may still use a definition.
#[derive(Debug, Clone, Copy, PartialEq, Eq, Structural)]
pub enum DefinitionState {
    Active,
    Deprecated,
}

/// What a Property key means.
#[derive(Debug, PartialEq, Eq)]
pub struct PropertyDefinition {
    pub key: String,
    pub label: String,
    pub description: Option<String>,
    pub expected_value_kind: Option<PropertyValueKind>,
    pub state: DefinitionState,
    pub replacement_key: Option<String>,
    pub origin: String,
    pub version: u64,
}

/// A Property definition, its texts taken as sequences of characters.
pub struct PropertyDefinitionView {
    pub key: Seq<char>,
    pub label: Seq<char>,
    pub description: Option<Seq<char>>,
    pub expected_value_kind: Option<PropertyValueKind>,
    pub state: DefinitionState,
    pub replacement_key: Option<Seq<char>>,
    pub origin: Seq<char>,
    pub version: u64,
}

impl View for PropertyDefinition {
    type V = PropertyDefinitionView;

    open spec fn view(&self) -> PropertyDefinitionView {
        PropertyDefinitionView {
            key: self.key@,
            label: self.label@,
            description: optional_text(self.description),
            expected_value_kind: self.expected_value_kind,
            state: self.state,
            replacement_key: optional_text(self.replacement_key),
            origin: self.origin@,
            version: self.version,
        }
    }
}

impl Clone for PropertyDefinition {
    fn clone(&self) -> (r: PropertyDefinition)
        ensures
            r@ == self@,
    {
        PropertyDefinition {
            key: self.key.clone(),
            label: self.label.clone(),
            description: clone_optional_text(&self.description),
            expected_value_kind: self.expected_value_kind,
            state: self.state,
            replacement_key: clone_optional_text(&self.replacement_key),
            origin: self.origin.clone(),
            version: self.version,
        }
    }
}

impl TableRow for PropertyDefinition {
    open spec fn sound(&self) -> bool {
        true
    }

    fn copy_row(&self) -> (r: PropertyDefinition) {
        self.clone()
    }
}

/// A Property definition to register.
#[derive(Debug, Clone, PartialEq, Eq)]
pub struct NewPropertyDefinition {
    pub key: String,
    pub label: String,
    pub description: Option<String>,
    pub expected_value_kind: Option<PropertyValueKind>,
    pub origin: String,
}

/// What an update of a Property definition sets.
#[derive(Debug, Clone, PartialEq, Eq)]
pub struct PropertyDefinitionUpdate {
    pub label: String,
    pub description: Option<String>,
    pub expected_value_kind: Option<PropertyValueKind>,
}

/// What a Relationship key means.
#[derive(Debug, PartialEq, Eq)]
pub struct RelationshipDefinition {
    pub key: String,
    pub forward_label: String,
    pub inverse_label: Option<String>,
    pub description: Option<String>,
    pub state: DefinitionState,
    pub replacement_key: Option<String>,
    pub origin: String,
    pub version: u64,
}

/// A Relationship definition, its texts taken as sequences of characters.
pub struct RelationshipDefinitionView {
    pub key: Seq<char>,
    pub forward_label: Seq<char>,
    pub inverse_label: Option<Seq<char>>,
    pub description: Option<Seq<char>>,
    pub state: DefinitionState,
    pub replacement_key: Option<Seq<char>>,
    pub origin: Seq<char>,
    pub version: u64,
}

impl View for RelationshipDefinition {
    type V = RelationshipDefinitionView;

    open spec fn view(&self) -> RelationshipDefinitionView {
        RelationshipDefinitionView {
            key: self.key@,
            forward_label: self.forward_label@,
            inverse_label: optional_text(self.inverse_label),
            description: optional_text(self.description),
            state: self.state,
            replacement_key: optional_text(self.replacement_key),
            origin: self.origin@,
            version: self.version,
        }
    }
}

impl Clone for RelationshipDefinition {
    fn clone(&self) -> (r: RelationshipDefinition)
        ensures
            r@ == self@,
    {
        RelationshipDefinition {
            key: self.key.clone(),
            forward_label: self.forward_label.clone(),
            inverse_label: clone_optional_text(&self.inverse_label),
            description: clone_optional_text(&self.description),
            state: self.state,
            replacement_key: clone_optional_text(&self.replacement_key),
            origin: self.origin.clone(),
            version: self.version,
        }
    }
}

impl TableRow for RelationshipDefinition {
    open spec fn sound(&self) -> bool {
        true
    }

    fn copy_row(&self) -> (r: RelationshipDefinition) {
        self.clone()
    }
}

/// A Relationship definition to register.
#[derive(Debug, Clone, PartialEq, Eq)]
pub struct NewRelationshipDefinition {
    pub key: String,
    pub forward_label: String,
    pub inverse_label: Option<String>,
    pub description: Option<String>,
    pub origin: String,
}

/// What an update of a Relationship definition sets.
#[derive(Debug, Clone, PartialEq, Eq)]
pub struct RelationshipDefinitionUpdate {
    pub forward_label: String,
    pub inverse_label: Option<String>,
    pub description: Option<String>,
}

/// How many facts use a definition.
#[derive(Debug, Clone, PartialEq, Eq)]
pub struct DefinitionUsage {
    pub key: String,
    pub fact_count: u64,
}

/// A Relationship: its key leads from its source to its target.
#[derive(Debug, PartialEq, Eq)]
pub struct Relationship {
    pub source: NodeId,
    pub key: String,
    pub target: NodeId,
}

/// A Relationship, its key taken as a sequence of characters.
pub struct RelationshipView {
    pub source: NodeId,
    pub key: Seq<char>,
    pub target: NodeId,
}

impl View for Relationship {
    type V = RelationshipView;

    open spec fn view(&self) -> RelationshipView {
        RelationshipView { source: self.source, key: self.key@, target: self.target }
    }
}

impl Clone for Relationship {
    fn clone(&self) -> (r: Relationship)
        ensures
            r@ == self@,
    {
        Relationship { source: self.source, key: self.key.clone(), target: self.target }
    }
}

/// Which end of its Relationships a Node is asked at.
#[derive(Debug, Clone, Copy, PartialEq, Eq, Structural)]
pub enum RelationshipDirection {
    Outgoing,
    Incoming,
    Either,
}

/// Canonical resolution of a syntactically valid Node ID.
#[derive(Debug, Clone, Copy, PartialEq, Eq, Structural)]
pub enum IdentityResolution {
    Active,
    Tombstoned,
    Retired,
    NeverIssued,
}

/// Opaque continuation token for keyset traversal.
///
/// The token is transportable, but its contents and encoding
/// are not part of Core's compatibility contract. Callers must return it
/// unchanged to the operation that produced it.
#[derive(Debug, Clone, PartialEq, Eq)]
pub struct ReadCursor {
    token: String,
}

impl View for ReadCursor {
    type V = Seq<char>;

    closed spec fn view(&self) -> Seq<char> {
        self.token@
    }
}

impl ReadCursor {
    /// Rehydrates a token received from a previous Core response.
    /// Validation is performed when the cursor is used.
    pub fn from_token(token: String) -> (r: ReadCursor)
        ensures
            r@ == token@,
    {
        ReadCursor { token }
    }

    /// The token.
    pub fn token(&self) -> (r: &str)
        ensures
            r@ == self@,
    {
        self.token.as_str()
    }
}

/// One bounded keyset page and its optional continuation token.
#[derive(Debug, Clone, PartialEq, Eq)]
pub struct CursorPage<T> {
    pub items: Vec<T>,
    pub next_cursor: Option<ReadCursor>,
}

/// A page size brought into the range that pages have.
pub open spec fn clamped_limit(limit: usize) -> nat {
    if limit < 1 {
        1
    } else if limit > 1_000 {
        1_000
    } else {
        limit as nat
    }
}

/// A page size brought into the range that pages have.
pub fn bounded_limit(limit: usize) -> (r: usize)
    ensures
        r == clamped_limit(limit),
{
    if limit < 1 {
        1
    } else if limit > 1_000 {
        1_000
    } else {
        limit
    }
}

/// Bounded OFFSET compatibility window. Limits above 1,000 are clamped.
///
/// New sequential traversal should use a cursor API. OFFSET remains available
/// for existing callers and small random-access windows, but it is not a
/// stable long-running traversal contract when concurrent writes occur.
#[derive(Debug, Clone, Copy, PartialEq, Eq, Structural)]
pub struct ReadPage {
    pub offset: u64,
    pub limit: usize,
}

/// Why a window is refused.
pub open spec fn page_fault(page: ReadPage) -> Option<ErrorView> {
    if page.offset > i64::MAX {
        Some(ErrorView::Conflict("read-page offset exceeds the supported range"@))
    } else {
        None
    }
}

/// What a window shows of a sequence.
pub open spec fn page_of<T>(s: Seq<T>, page: ReadPage) -> Seq<T> {
    window(s, page.offset as nat, clamped_limit(page.limit))
}

/// The lesser of two numbers.
pub open spec fn lesser(a: nat, b: nat) -> nat {
    if a <= b {
        a
    } else {
        b
    }
}

/// At most `limit` items of a sequence, from `offset` on.
pub open spec fn window<T>(s: Seq<T>, offset: nat, limit: nat) -> Seq<T> {
    s.subrange(lesser(offset, s.len()) as int, lesser(offset + limit, s.len()) as int)
}

/// Where a window of at most `limit` items begins and ends in a sequence of this length.
pub fn window_bounds(offset: u64, limit: usize, len: usize) -> (r: (usize, usize))
    ensures
        r.0 <= r.1 <= len,
        r.0 == lesser(offset as nat, len as nat),
        r.1 == lesser(offset as nat + limit as nat, len as nat),
{
    let from: usize = if offset < len as u64 {
        offset as usize
    } else {
        len
    };
    let to: usize = if limit < len - from {
        from + limit
    } else {
        len
    };
    (from, to)
}

impl ReadPage {
    /// The greatest number of items in a page.
    pub const MAX_LIMIT: usize = 1_000;

    /// A window of at most `limit` items from `offset` on.
    pub fn new(offset: u64, limit: usize) -> (r: ReadPage)
        ensures
            r.offset == offset,
            r.limit == limit,
    {
        ReadPage { offset, limit }
    }

    /// How many items the window may hold.
    pub fn sql_limit(self) -> (r: i64)
        ensures
            r == clamped_limit(self.limit),
    {
        bounded_limit(self.limit) as i64
    }

    /// Where the window begins.
    pub fn sql_offset(self) -> (r: Result<i64, CoreError>)
        ensures
            match r {
                Ok(offset) => page_fault(self) is None && offset == self.offset,
                Err(e) => page_fault(self) == Some(e@),
            },
    {
        if self.offset > i64::MAX as u64 {
            Err(conflict("read-page offset exceeds the supported range"))
        } else {
            Ok(self.offset as i64)
        }
    }
}

/// One change of a batch.
#[derive(Debug, Clone, PartialEq, Eq)]
pub enum Mutation {
    /// Atomically issues and creates a blank active Node. Later mutations in
    /// the same batch may initialize its Properties and Relationships.
    CreateNode { node_id: NodeId },
    SetProperty { node_id: NodeId, key: String, value: PropertyValue },
    RemoveProperty { node_id: NodeId, key: String },
    AddRelationship { source: NodeId, key: String, target: NodeId },
    RemoveRelationship { source: NodeId, key: String, target: NodeId },
    TombstoneNode { node_id: NodeId },
    RestoreNode { node_id: NodeId },
    PurgeNode { node_id: NodeId },
}

/// Generic comparison supported by the Index-backed Property query path.
#[derive(Debug, Clone, PartialEq, Eq)]
pub enum PropertyFilter {
    Equals(PropertyValue),
    AtLeast(PropertyValue),
    AtMost(PropertyValue),
}

/// The order of the matches of a Property query.
#[derive(Debug, Clone, Copy, PartialEq, Eq, Structural)]
pub enum PropertySort {
    Ascending,
    Descending,
}

/// A question about the values that Nodes have for a Property key.
#[derive(Debug, Clone, PartialEq, Eq)]
pub struct PropertyQuery {
    pub key: String,
    pub filter: Option<PropertyFilter>,
    pub sort: PropertySort,
    pub limit: usize,
}

/// A Node and its value for the Property key that was asked for.
#[derive(Debug, Clone, PartialEq, Eq)]
pub struct IndexedPropertyMatch {
    pub node_id: NodeId,
    pub value: PropertyValue,
}

/// A committed batch: the revision it made, and how many changes it held.
#[derive(Debug, Clone, Copy, PartialEq, Eq, Structural)]
pub struct Commit {
    pub revision: u64,
    pub change_count: usize,
}

/// Whether the Index shows the current Record revision.
#[derive(Debug, Clone, Copy, PartialEq, Eq, Structural)]
pub enum IndexSyncState {
    Current,
    Stale,
}

/// How far the Index follows the Record Store.
#[derive(Debug, Clone, Copy, PartialEq, Eq, Structural)]
pub struct IndexSyncStatus {
    pub record_revision: u64,
    pub applied_revision: u64,
    pub state: IndexSyncState,
}

/// Why an Index was built anew.
#[derive(Debug, Clone, Copy, PartialEq, Eq, Structural)]
pub enum IndexRebuildReason {
    Missing,
    CorruptOrIncompatible,
    JournalUnavailable,
    Requested,
}

/// What a reconciliation of the Index did.
#[derive(Debug, Clone, Copy, PartialEq, Eq, Structural)]
pub enum ReconcileOutcome {
    Current { revision: u64 },
    Incremental { from_revision: u64, to_revision: u64, change_count: usize },
    Rebuilt { revision: u64, reason: IndexRebuildReason },
}

/// A text of a Node that can be searched.
#[derive(Debug, PartialEq, Eq)]
pub struct SearchDocumentInput {
    pub document_key: String,
    pub node_id: NodeId,
    pub source_kind: String,
    pub title: String,
    pub body: String,
    pub metadata: String,
    pub source_locator: Option<String>,
    pub source_fingerprint: String,
}

/// A Relationship found in the content of a Node.
#[derive(Debug, PartialEq, Eq)]
pub struct DerivedRelationshipInput {
    pub source: NodeId,
    pub relationship_key: String,
    pub target: Option<NodeId>,
    pub target_text: String,
    pub source_kind: String,
    pub source_locator: Option<String>,
    pub parser: String,
    pub start_offset: usize,
    pub end_offset: usize,
}

/// Whether a Relationship is a canonical fact or was found in content.
#[derive(Debug, Clone, Copy, PartialEq, Eq, Structural)]
pub enum RelationshipProvenance {
    CanonicalRecord,
    ContentDerived,
}

/// A Relationship as the Index shows it.
#[derive(Debug, PartialEq, Eq)]
pub struct IndexedRelationship {
    pub source: NodeId,
    pub relationship_key: String,
    pub target: Option<NodeId>,
    pub unresolved_target: Option<String>,
    pub provenance: RelationshipProvenance,
    pub inverse_label: Option<String>,
    pub source_kind: Option<String>,
    pub source_locator: Option<String>,
    pub parser: Option<String>,
    pub start_offset: Option<usize>,
    pub end_offset: Option<usize>,
}

/// A Node that a search found; the rank is the bits of a double.
#[derive(Debug, PartialEq, Eq)]
pub struct SearchHit {
    pub node_id: NodeId,
    pub title: String,
    pub source_kind: String,
    pub snippet: String,
    pub rank: u64,
}

/// A Node of the graph.
#[derive(Debug, PartialEq, Eq)]
pub struct GraphNode {
    pub node_id: NodeId,
    pub title: String,
    pub is_orphan: bool,
}

/// An edge of the graph.
#[derive(Debug, PartialEq, Eq)]
pub struct GraphEdge {
    pub source: NodeId,
    pub relationship_key: String,
    pub target: Option<NodeId>,
    pub unresolved_target: Option<String>,
    pub provenance: RelationshipProvenance,
}

/// The active Nodes and the edges between them.
#[derive(Debug, PartialEq, Eq)]
pub struct GraphProjection {
    pub nodes: Vec<GraphNode>,
    pub edges: Vec<GraphEdge>,
}

/// No page holds more than a request may ask for, whatever it asks for.
pub proof fn law_pages_are_bounded<T>(s: Seq<T>, page: ReadPage)
    ensures
        page_of(s, page).len() <= ReadPage::MAX_LIMIT,
        1 <= clamped_limit(page.limit) <= ReadPage::MAX_LIMIT,
{
}

} // verus!
