//! Page-by-page reading of one content of the Record Store.
use vstd::prelude::*;
use crate::api::{
    bounded_limit, clamped_limit, lesser, texts_view, window_bounds, CursorPage, PropertyDefinition,
    ReadCursor, Relationship, RelationshipDefinition, RelationshipView,
};
use crate::cursor::{
    byte_len, cursor_read, cursor_token, decode_cursor, encode_cursor, lemma_byte_len_ascii,
    lemma_byte_len_concat, lemma_token_length, total_bytes, unreadable_cursor,
};
use crate::error::{conflict, CoreError, ErrorView};
use crate::id::{id_of, id_read, NodeId};
use crate::node::Node;
use crate::paging::{lemma_place, more_after, page_after, place_after};
use crate::record_store::model::{
    NodeRowView, PropertyRowView, RecordModel, RecordStore,
};
use crate::record_store::operations::no_node;
use crate::record_store::queries::relationships_view;
use crate::table::{in_order, Table, TableKey, TableRow};
use crate::value::PropertyValue;

verus! {

/// A canonical Record Store content pinned for reading.
///
/// The value is only available inside `with_stable_read_snapshot`.
/// Every page read through it observes exactly the same committed content.
pub struct StableReadSnapshot<'a> {
    records: &'a RecordStore,
}

impl<'a> View for StableReadSnapshot<'a> {
    type V = RecordModel;

    closed spec fn view(&self) -> RecordModel {
        self.records@
    }
}

/// The token of an optional cursor.
pub open spec fn cursor_of(cursor: Option<&ReadCursor>) -> Option<Seq<char>> {
    match cursor {
        Some(c) => Some(c@),
        None => None,
    }
}

/// The position that a cursor of a traversal carries, for the content at one revision.
pub open spec fn position_read(token: Option<Seq<char>>, collection: Seq<char>, revision: u64) -> Result<
    Option<Seq<Seq<char>>>,
    ErrorView,
> {
    match token {
        None => Ok(None),
        Some(t) => match cursor_read(t, collection) {
            Err(fault) => Err(fault),
            Ok(payload) => if payload.revision != revision {
                Err(
                    ErrorView::Conflict("read cursor belongs to a different stable snapshot"@),
                )
            } else {
                Ok(Some(payload.after))
            },
        },
    }
}

/// The key that a cursor of a traversal by one text carries.
pub open spec fn text_read(token: Option<Seq<char>>, collection: Seq<char>, revision: u64) -> Result<
    Option<Seq<char>>,
    ErrorView,
> {
    match position_read(token, collection, revision) {
        Err(fault) => Err(fault),
        Ok(None) => Ok(None),
        Ok(Some(after)) => if after.len() != 1 {
            Err(unreadable_cursor())
        } else {
            Ok(Some(after[0]))
        },
    }
}

/// The ID that a cursor of a traversal by ID carries.
pub open spec fn node_id_read(token: Option<Seq<char>>, collection: Seq<char>, revision: u64) -> Result<
    Option<NodeId>,
    ErrorView,
> {
    match text_read(token, collection, revision) {
        Err(fault) => Err(fault),
        Ok(None) => Ok(None),
        Ok(Some(text)) => match id_read(text) {
            Err(_) => Err(unreadable_cursor()),
            Ok(bytes) => Ok(Some(id_of(bytes))),
        },
    }
}

/// The Relationship that a cursor of a traversal of Relationships carries.
pub open spec fn relationship_read(
    token: Option<Seq<char>>,
    collection: Seq<char>,
    revision: u64,
) -> Result<Option<RelationshipView>, ErrorView> {
    match position_read(token, collection, revision) {
        Err(fault) => Err(fault),
        Ok(None) => Ok(None),
        Ok(Some(after)) => if after.len() != 3 {
            Err(unreadable_cursor())
        } else {
            match (id_read(after[0]), id_read(after[2])) {
                (Ok(source), Ok(target)) => Ok(
                    Some(
                        RelationshipView {
                            source: id_of(source),
                            key: after[1],
                            target: id_of(target),
                        },
                    ),
                ),
                _ => Err(unreadable_cursor()),
            }
        },
    }
}

/// How a traversal writes the position of an ID.
pub open spec fn node_id_position(id: NodeId) -> Seq<Seq<char>> {
    seq![id.text()]
}

/// How a traversal writes the position of a Relationship.
pub open spec fn relationship_position(r: RelationshipView) -> Seq<Seq<char>> {
    seq![r.source.text(), r.key, r.target.text()]
}

/// The name of the traversal of the Properties of a Node.
pub open spec fn properties_collection(id: NodeId) -> Seq<char> {
    "record_snapshot.properties."@ + id.text() + ".key_asc"@
}

/// Whether a page ends with the cursor that it should: none at the end of the listing, and
/// otherwise the one that goes on after its last key.
pub open spec fn cursor_ends<K: TableKey>(
    next: Option<ReadCursor>,
    keys: Seq<K::V>,
    after: Option<K::V>,
    limit: nat,
    collection: Seq<char>,
    revision: u64,
    position: spec_fn(K::V) -> Seq<Seq<char>>,
) -> bool {
    match next {
        None => !more_after::<K>(keys, after, limit),
        Some(cursor) => more_after::<K>(keys, after, limit) && cursor@ == cursor_token(
            collection,
            revision,
            position(page_after::<K>(keys, after, limit).last()),
        ),
    }
}

/// A key of at most 255 bytes, or an ID, makes a token that can be read again.
pub proof fn lemma_token_fits(collection: Seq<char>, revision: u64, after: Seq<Seq<char>>)
    requires
        byte_len(collection) <= 80,
        after.len() <= 3,
        total_bytes(after, after.len()) <= 400,
    ensures
        cursor_token(collection, revision, after).len() <= 8_192,
{
    lemma_token_length(collection, revision, after);
}

/// How many bytes a position of one text has.
pub proof fn lemma_one_text_bytes(text: Seq<char>)
    ensures
        total_bytes(seq![text], 1) == byte_len(text),
{
    reveal_with_fuel(total_bytes, 2);
}

/// How many bytes the position of a Relationship has.
pub proof fn lemma_relationship_bytes(r: RelationshipView)
    ensures
        total_bytes(relationship_position(r), 3) == 72 + byte_len(r.key),
{
    NodeId::lemma_text_length(r.source);
    NodeId::lemma_text_length(r.target);
    lemma_byte_len_ascii(r.source.text());
    lemma_byte_len_ascii(r.target.text());
    reveal_with_fuel(total_bytes, 4);
}

/// Where the page after a position begins and ends in a table.
fn page_bounds<K: TableKey, V: TableRow>(table: &Table<K, V>, after: &Option<K>, limit: usize) -> (r: (
    usize,
    usize,
))
    requires
        table.wf(),
    ensures
        r.0 <= r.1 <= table.keys().len(),
        r.0 == place_after::<K>(table.keys(), position_view(*after)),
        page_after::<K>(table.keys(), position_view(*after), limit as nat)
            == table.keys().subrange(r.0 as int, r.1 as int),
        r.1 < table.keys().len() <==> more_after::<K>(
            table.keys(),
            position_view(*after),
            limit as nat,
        ),
        r.1 == lesser(r.0 as nat + limit as nat, table.keys().len()),
{
    let begin: usize = match after {
        None => 0,
        Some(key) => {
            let place: usize = table.count_through(key);
            proof {
                lemma_place::<K>(table.keys(), key@, place as nat);
            }
            place
        },
    };
    let (from, to) = window_bounds(begin as u64, limit, table.len());
    (from, to)
}

/// The view of an optional key.
pub open spec fn position_view<K: TableKey>(key: Option<K>) -> Option<K::V> {
    match key {
        Some(k) => Some(k@),
        None => None,
    }
}

impl RecordStore {
    /// Reads through one content of the store.
    pub fn with_stable_read_snapshot<T, F>(&self, read: F) -> (r: Result<T, CoreError>) where
        F: FnOnce(&StableReadSnapshot<'_>) -> Result<T, CoreError>,

        requires
            self.wf(),
            forall|s: &StableReadSnapshot<'_>|
                s.wf() && s@ == self@ ==> #[trigger] call_requires(read, (s,)),
        ensures
            exists|s: &StableReadSnapshot<'_>|
                s.wf() && s@ == self@ && #[trigger] call_ensures(read, (s,), r),
    {
        let snapshot = StableReadSnapshot { records: self };
        read(&snapshot)
    }
}

impl<'a> StableReadSnapshot<'a> {
    /// The invariant: that of the store.
    pub closed spec fn wf(&self) -> bool {
        self.records.wf()
    }

    /// The revision of the content.
    pub fn revision(&self) -> (r: u64)
        ensures
            r == self@.revision,
    {
        self.records.revision
    }

    /// The position that a cursor carries.
    fn payload(&self, cursor: Option<&ReadCursor>, collection: &str) -> (r: Result<
        Option<Vec<String>>,
        CoreError,
    >)
        ensures
            match r {
                Ok(None) => position_read(cursor_of(cursor), collection@, self@.revision) == Ok::<
                    Option<Seq<Seq<char>>>,
                    ErrorView,
                >(None),
                Ok(Some(after)) => position_read(cursor_of(cursor), collection@, self@.revision)
                    == Ok::<Option<Seq<Seq<char>>>, ErrorView>(Some(texts_view(after@))),
                Err(e) => position_read(cursor_of(cursor), collection@, self@.revision) == Err::<
                    Option<Seq<Seq<char>>>,
                    ErrorView,
                >(e@),
            },
            forall|after: Seq<Seq<char>>|
                cursor is Some && cursor->0@ == #[trigger] cursor_token(
                    collection@,
                    self@.revision,
                    after,
                ) && cursor->0@.len() <= 8_192 ==> r is Ok && r->Ok_0 is Some && texts_view(
                    r->Ok_0->0@,
                ) == after,
    {
        match cursor {
            None => Ok(None),
            Some(cursor) => match decode_cursor(cursor, collection) {
                Err(e) => Err(e),
                Ok(payload) => if payload.revision != self.records.revision {
                    Err(conflict("read cursor belongs to a different stable snapshot"))
                } else {
                    Ok(Some(payload.after))
                },
            },
        }
    }

    fn after_string(&self, cursor: Option<&ReadCursor>, collection: &str) -> (r: Result<
        Option<String>,
        CoreError,
    >)
        ensures
            match r {
                Ok(after) => text_read(cursor_of(cursor), collection@, self@.revision) == Ok::<
                    Option<Seq<char>>,
                    ErrorView,
                >(position_view(after)),
                Err(e) => text_read(cursor_of(cursor), collection@, self@.revision) == Err::<
                    Option<Seq<char>>,
                    ErrorView,
                >(e@),
            },
            forall|text: Seq<char>|
                cursor is Some && cursor->0@ == #[trigger] cursor_token(
                    collection@,
                    self@.revision,
                    seq![text],
                ) && cursor->0@.len() <= 8_192 ==> r is Ok && position_view(r->Ok_0) == Some(text),
    {
        match self.payload(cursor, collection) {
            Err(e) => Err(e),
            Ok(None) => Ok(None),
            Ok(Some(after)) => {
                proof {
                    assert forall|text: Seq<char>|
                        cursor is Some && cursor->0@ == #[trigger] cursor_token(
                            collection@,
                            self@.revision,
                            seq![text],
                        ) && cursor->0@.len() <= 8_192 implies after@.len() == 1 && after@[0]@
                        == text by {
                        let all = texts_view(after@);
                        assert(all == seq![text]);
                        assert(all.len() == 1 && all[0] == text);
                    }
                }
                if after.len() != 1 {
                    Err(conflict("invalid or unsupported read cursor"))
                } else {
                    Ok(Some(after[0].clone()))
                }
            },
        }
    }

    fn after_node_id(&self, cursor: Option<&ReadCursor>, collection: &str) -> (r: Result<
        Option<NodeId>,
        CoreError,
    >)
        ensures
            match r {
                Ok(after) => node_id_read(cursor_of(cursor), collection@, self@.revision) == Ok::<
                    Option<NodeId>,
                    ErrorView,
                >(after),
                Err(e) => node_id_read(cursor_of(cursor), collection@, self@.revision) == Err::<
                    Option<NodeId>,
                    ErrorView,
                >(e@),
            },
            forall|id: NodeId|
                cursor is Some && id.valid() && cursor->0@ == #[trigger] cursor_token(
                    collection@,
                    self@.revision,
                    node_id_position(id),
                ) && cursor->0@.len() <= 8_192 ==> r is Ok && r->Ok_0 == Some(id),
    {
        match self.after_string(cursor, collection) {
            Err(e) => Err(e),
            Ok(None) => Ok(None),
            Ok(Some(text)) => match NodeId::parse(text.as_str()) {
                Err(_) => Err(conflict("invalid or unsupported read cursor")),
                Ok(id) => {
                    proof {
                        NodeId::lemma_id_of(id);
                    }
                    Ok(Some(id))
                },
            },
        }
    }

    fn after_relationship(&self, cursor: Option<&ReadCursor>, collection: &str) -> (r: Result<
        Option<Relationship>,
        CoreError,
    >)
        ensures
            match r {
                Ok(after) => relationship_read(cursor_of(cursor), collection@, self@.revision)
                    == Ok::<Option<RelationshipView>, ErrorView>(position_view(after)),
                Err(e) => relationship_read(cursor_of(cursor), collection@, self@.revision)
                    == Err::<Option<RelationshipView>, ErrorView>(e@),
            },
            forall|k: RelationshipView|
                cursor is Some && k.source.valid() && k.target.valid() && cursor->0@
                    == #[trigger] cursor_token(
                    collection@,
                    self@.revision,
                    relationship_position(k),
                ) && cursor->0@.len() <= 8_192 ==> r is Ok && position_view(r->Ok_0) == Some(k),
    {
        match self.payload(cursor, collection) {
            Err(e) => Err(e),
            Ok(None) => Ok(None),
            Ok(Some(after)) => {
                let ghost all = texts_view(after@);
                proof {
                    assert forall|k: RelationshipView|
                        cursor is Some && cursor->0@ == #[trigger] cursor_token(
                            collection@,
                            self@.revision,
                            relationship_position(k),
                        ) && cursor->0@.len() <= 8_192 implies all == relationship_position(k) by {}
                    assert(all.len() == 3 ==> all[0] == after@[0]@ && all[1] == after@[1]@ && all[2]
                        == after@[2]@);
                }
                if after.len() != 3 {
                    return Err(conflict("invalid or unsupported read cursor"));
                }
                let source = match NodeId::parse(after[0].as_str()) {
                    Err(_) => return Err(conflict("invalid or unsupported read cursor")),
                    Ok(id) => id,
                };
                let target = match NodeId::parse(after[2].as_str()) {
                    Err(_) => return Err(conflict("invalid or unsupported read cursor")),
                    Ok(id) => id,
                };
                proof {
                    NodeId::lemma_id_of(source);
                    NodeId::lemma_id_of(target);
                }
                Ok(Some(Relationship { source, key: after[1].clone(), target }))
            },
        }
    }

    /// The cursor that goes on after a position, if there is more.
    fn next_cursor(&self, more: bool, collection: &str, after: Vec<String>) -> (r: Option<
        ReadCursor,
    >)
        ensures
            match r {
                Some(cursor) => more && cursor@ == cursor_token(
                    collection@,
                    self@.revision,
                    texts_view(after@),
                ),
                None => !more,
            },
    {
        if more {
            Some(encode_cursor(collection, self.records.revision, &after))
        } else {
            None
        }
    }

    /// Traverses every issued identity, including retired IDs, in UUID order.
    pub fn issued_ids_page(&self, limit: usize, cursor: Option<&ReadCursor>) -> (r: Result<
        CursorPage<NodeId>,
        CoreError,
    >)
        requires
            self.wf(),
        ensures
            ({
                let keys = in_order::<NodeId>(self@.issued);
                let size = clamped_limit(limit);
                match r {
                    Ok(page) => match node_id_read(
                        cursor_of(cursor),
                        "record_snapshot.issued_ids.uuid_asc"@,
                        self@.revision,
                    ) {
                        Ok(after) => {
                            &&& page.items@ == page_after::<NodeId>(keys, after, size)
                            &&& cursor_ends::<NodeId>(
                                page.next_cursor,
                                keys,
                                after,
                                size,
                                "record_snapshot.issued_ids.uuid_asc"@,
                                self@.revision,
                                |k: <NodeId as View>::V| node_id_position(k),
                            )
                            &&& page.next_cursor is Some ==> page.next_cursor->0@.len()
                                <= 8_192
                        },
                        Err(_) => false,
                    },
                    Err(e) => node_id_read(cursor_of(cursor), "record_snapshot.issued_ids.uuid_asc"@, self@.revision)
                        == Err::<Option<<NodeId as View>::V>, ErrorView>(e@),
                }
            }),
            forall|k: <NodeId as View>::V|
                cursor is Some && k.valid() && cursor->0@ == #[trigger] cursor_token(
                    "record_snapshot.issued_ids.uuid_asc"@,
                    self@.revision,
                    node_id_position(k),
                ) && cursor->0@.len() <= 8_192 ==> r is Ok && node_id_read(
                    cursor_of(cursor),
                    "record_snapshot.issued_ids.uuid_asc"@,
                    self@.revision,
                ) == Ok::<Option<<NodeId as View>::V>, ErrorView>(Some(k)),
    {
        let after = match self.after_node_id(cursor, "record_snapshot.issued_ids.uuid_asc") {
            Err(e) => return Err(e),
            Ok(after) => after,
        };
        let limit: usize = bounded_limit(limit);
        let table = &self.records.issued;
        proof {
            table.lemma_view();
        }
        let (from, to) = page_bounds(table, &after, limit);
        let mut items: Vec<NodeId> = Vec::new();
        let mut i: usize = from;
        while i < to
            invariant
                table.wf(),
                from <= i <= to <= table.keys().len(),
                items@.len() == i - from,
                forall|j: int| 0 <= j < items@.len() ==> #[trigger] items@[j] == table.keys()[from + j],
            decreases to - i,
        {
            items.push(*table.key_at(i));
            i = i + 1;
        }
        let more = to < table.len();
        let mut position: Vec<String> = Vec::new();
        if more {
            position.push(table.key_at(to - 1).to_string());
        }
        proof {
            table.lemma_view();
            if more {
                let last = page_after::<NodeId>(
                    table.keys(),
                    position_view(after),
                    limit as nat,
                ).last();
                assert(last == table.keys()[to - 1]);
                assert(texts_view(position@) =~= node_id_position(last));
                NodeId::lemma_text_length(last);
                lemma_byte_len_ascii(last.text());
                lemma_one_text_bytes(last.text());
                reveal_strlit("record_snapshot.issued_ids.uuid_asc");
                lemma_byte_len_ascii("record_snapshot.issued_ids.uuid_asc"@);
                lemma_token_fits("record_snapshot.issued_ids.uuid_asc"@, self@.revision, node_id_position(last));
            }
        }
        let next_cursor = self.next_cursor(more, "record_snapshot.issued_ids.uuid_asc", position);
        proof {
            assert(items@ =~= table.keys().subrange(from as int, to as int));
        }
        Ok(CursorPage { items, next_cursor })
    }

    /// Traverses canonical Nodes in permanent UUID order.
    pub fn nodes_page(&self, limit: usize, cursor: Option<&ReadCursor>) -> (r: Result<
        CursorPage<Node>,
        CoreError,
    >)
        requires
            self.wf(),
        ensures
            ({
                let keys = in_order::<NodeId>(self@.nodes.dom());
                let size = clamped_limit(limit);
                match r {
                    Ok(page) => match node_id_read(
                        cursor_of(cursor),
                        "record_snapshot.nodes.uuid_asc"@,
                        self@.revision,
                    ) {
                        Ok(after) => {
                            &&& nodes_at(page.items@, page_after::<NodeId>(keys, after, size), self@.nodes)
                            &&& cursor_ends::<NodeId>(
                                page.next_cursor,
                                keys,
                                after,
                                size,
                                "record_snapshot.nodes.uuid_asc"@,
                                self@.revision,
                                |k: <NodeId as View>::V| node_id_position(k),
                            )
                            &&& page.next_cursor is Some ==> page.next_cursor->0@.len()
                                <= 8_192
                        },
                        Err(_) => false,
                    },
                    Err(e) => node_id_read(cursor_of(cursor), "record_snapshot.nodes.uuid_asc"@, self@.revision)
                        == Err::<Option<<NodeId as View>::V>, ErrorView>(e@),
                }
            }),
            forall|k: <NodeId as View>::V|
                cursor is Some && k.valid() && cursor->0@ == #[trigger] cursor_token(
                    "record_snapshot.nodes.uuid_asc"@,
                    self@.revision,
                    node_id_position(k),
                ) && cursor->0@.len() <= 8_192 ==> r is Ok && node_id_read(
                    cursor_of(cursor),
                    "record_snapshot.nodes.uuid_asc"@,
                    self@.revision,
                ) == Ok::<Option<<NodeId as View>::V>, ErrorView>(Some(k)),
    {
        let after = match self.after_node_id(cursor, "record_snapshot.nodes.uuid_asc") {
            Err(e) => return Err(e),
            Ok(after) => after,
        };
        let limit: usize = bounded_limit(limit);
        let table = &self.records.nodes;
        proof {
            table.lemma_view();
        }
        let (from, to) = page_bounds(table, &after, limit);
        let mut items: Vec<Node> = Vec::new();
        let mut i: usize = from;
        while i < to
            invariant
                table.wf(),
                from <= i <= to <= table.keys().len(),
                items@.len() == i - from,
                forall|j: int| 0 <= j < items@.len() ==> (#[trigger] items@[j]).id == table.keys()[from + j]
                        && items@[j].lifecycle_state == table@[table.keys()[from + j]].lifecycle_state,
            decreases to - i,
        {
            let id = *table.key_at(i);
            items.push(Node { id, lifecycle_state: table.row_at(i).lifecycle_state });
            i = i + 1;
        }
        let more = to < table.len();
        let mut position: Vec<String> = Vec::new();
        if more {
            position.push(table.key_at(to - 1).to_string());
        }
        proof {
            table.lemma_view();
            if more {
                let last = page_after::<NodeId>(
                    table.keys(),
                    position_view(after),
                    limit as nat,
                ).last();
                assert(last == table.keys()[to - 1]);
                assert(texts_view(position@) =~= node_id_position(last));
                NodeId::lemma_text_length(last);
                lemma_byte_len_ascii(last.text());
                lemma_one_text_bytes(last.text());
                reveal_strlit("record_snapshot.nodes.uuid_asc");
                lemma_byte_len_ascii("record_snapshot.nodes.uuid_asc"@);
                lemma_token_fits("record_snapshot.nodes.uuid_asc"@, self@.revision, node_id_position(last));
            }
        }
        let next_cursor = self.next_cursor(more, "record_snapshot.nodes.uuid_asc", position);
        Ok(CursorPage { items, next_cursor })
    }

    /// Traverses one Node's canonical Properties in key order.
    pub fn properties_page(&self, node_id: NodeId, limit: usize, cursor: Option<&ReadCursor>) -> (r: Result<
        CursorPage<(String, PropertyValue)>,
        CoreError,
    >)
        requires
            self.wf(),
        ensures
            ({
                let keys = in_order::<String>(self@.nodes[node_id].properties.dom());
                let size = clamped_limit(limit);
                match r {
                    Ok(page) => self@.nodes.dom().contains(node_id) && match text_read(
                        cursor_of(cursor),
                        properties_collection(node_id),
                        self@.revision,
                    ) {
                        Ok(after) => {
                            &&& properties_at(page.items@, page_after::<String>(keys, after, size), self@.nodes[node_id].properties)
                            &&& cursor_ends::<String>(
                                page.next_cursor,
                                keys,
                                after,
                                size,
                                properties_collection(node_id),
                                self@.revision,
                                |k: <String as View>::V| seq![k],
                            )
                            &&& page.next_cursor is Some && byte_len(page_after::<String>(keys, after, size).last()) <= 255 ==> page.next_cursor->0@.len()
                                <= 8_192
                        },
                        Err(_) => false,
                    },
                    Err(e) => if !self@.nodes.dom().contains(node_id) {
                        e@ == no_node(node_id)
                    } else {
                        text_read(cursor_of(cursor), properties_collection(node_id), self@.revision)
                        == Err::<Option<<String as View>::V>, ErrorView>(e@)
                    },
                }
            }),
            forall|k: <String as View>::V|
                cursor is Some && self@.nodes.dom().contains(node_id) && cursor->0@ == #[trigger] cursor_token(
                    properties_collection(node_id),
                    self@.revision,
                    seq![k],
                ) && cursor->0@.len() <= 8_192 ==> r is Ok && text_read(
                    cursor_of(cursor),
                    properties_collection(node_id),
                    self@.revision,
                ) == Ok::<Option<<String as View>::V>, ErrorView>(Some(k)),
    {
        let row = match self.records.require_node(node_id) {
            Err(e) => return Err(e),
            Ok(row) => row,
        };
        let id_text = node_id.to_string();
        let collection = crate::text::join3(
            "record_snapshot.properties.",
            id_text.as_str(),
            ".key_asc",
        );
        let after = match self.after_string(cursor, collection.as_str()) {
            Err(e) => return Err(e),
            Ok(after) => after,
        };
        let limit: usize = bounded_limit(limit);
        let table = &row.properties;
        proof {
            table.lemma_view();
        }
        let (from, to) = page_bounds(table, &after, limit);
        let mut items: Vec<(String, PropertyValue)> = Vec::new();
        let mut i: usize = from;
        while i < to
            invariant
                table.wf(),
                from <= i <= to <= table.keys().len(),
                items@.len() == i - from,
                forall|j: int| 0 <= j < items@.len() ==> (#[trigger] items@[j]).0@ == table.keys()[from + j]
                        && items@[j].1@ == table@[table.keys()[from + j]].value,
            decreases to - i,
        {
            let value = table.row_at(i).value.clone();
            items.push((table.key_at(i).clone(), value));
            i = i + 1;
        }
        let more = to < table.len();
        let mut position: Vec<String> = Vec::new();
        if more {
            position.push(table.key_at(to - 1).clone());
        }
        proof {
            table.lemma_view();
            if more {
                let last = page_after::<String>(
                    table.keys(),
                    position_view(after),
                    limit as nat,
                ).last();
                assert(last == table.keys()[to - 1]);
                assert(texts_view(position@) =~= seq![last]);
                lemma_one_text_bytes(last);
                NodeId::lemma_text_length(node_id);
                lemma_byte_len_ascii(node_id.text());
                reveal_strlit("record_snapshot.properties.");
                reveal_strlit(".key_asc");
                lemma_byte_len_ascii("record_snapshot.properties."@);
                lemma_byte_len_ascii(".key_asc"@);
                lemma_byte_len_concat("record_snapshot.properties."@, node_id.text());
                lemma_byte_len_concat("record_snapshot.properties."@ + node_id.text(), ".key_asc"@);
                if byte_len(last) <= 255 {
                    lemma_token_fits(collection@, self@.revision, seq![last]);
                }
            }
        }
        let next_cursor = self.next_cursor(more, collection.as_str(), position);
        Ok(CursorPage { items, next_cursor })
    }

    /// Traverses all canonical Relationships in source/key/target order.
    pub fn relationships_page(&self, limit: usize, cursor: Option<&ReadCursor>) -> (r: Result<
        CursorPage<Relationship>,
        CoreError,
    >)
        requires
            self.wf(),
        ensures
            ({
                let keys = in_order::<Relationship>(self@.relationships.dom());
                let size = clamped_limit(limit);
                match r {
                    Ok(page) => match relationship_read(
                        cursor_of(cursor),
                        "record_snapshot.relationships.source_key_target_asc"@,
                        self@.revision,
                    ) {
                        Ok(after) => {
                            &&& relationships_view(page.items@) == page_after::<Relationship>(keys, after, size)
                            &&& cursor_ends::<Relationship>(
                                page.next_cursor,
                                keys,
                                after,
                                size,
                                "record_snapshot.relationships.source_key_target_asc"@,
                                self@.revision,
                                |k: <Relationship as View>::V| relationship_position(k),
                            )
                            &&& page.next_cursor is Some && byte_len(page_after::<Relationship>(keys, after, size).last().key) <= 255 ==> page.next_cursor->0@.len()
                                <= 8_192
                        },
                        Err(_) => false,
                    },
                    Err(e) => relationship_read(cursor_of(cursor), "record_snapshot.relationships.source_key_target_asc"@, self@.revision)
                        == Err::<Option<<Relationship as View>::V>, ErrorView>(e@),
                }
            }),
            forall|k: <Relationship as View>::V|
                cursor is Some && k.source.valid() && k.target.valid() && cursor->0@ == #[trigger] cursor_token(
                    "record_snapshot.relationships.source_key_target_asc"@,
                    self@.revision,
                    relationship_position(k),
                ) && cursor->0@.len() <= 8_192 ==> r is Ok && relationship_read(
                    cursor_of(cursor),
                    "record_snapshot.relationships.source_key_target_asc"@,
                    self@.revision,
                ) == Ok::<Option<<Relationship as View>::V>, ErrorView>(Some(k)),
    {
        let after = match self.after_relationship(cursor, "record_snapshot.relationships.source_key_target_asc") {
            Err(e) => return Err(e),
            Ok(after) => after,
        };
        let limit: usize = bounded_limit(limit);
        let table = &self.records.relationships;
        proof {
            table.lemma_view();
        }
        let (from, to) = page_bounds(table, &after, limit);
        let mut items: Vec<Relationship> = Vec::new();
        let mut i: usize = from;
        while i < to
            invariant
                table.wf(),
                from <= i <= to <= table.keys().len(),
                items@.len() == i - from,
                forall|j: int| 0 <= j < items@.len() ==> (#[trigger] items@[j])@ == table.keys()[from + j],
            decreases to - i,
        {
            items.push(table.key_at(i).clone());
            i = i + 1;
        }
        let more = to < table.len();
        let mut position: Vec<String> = Vec::new();
        if more {
            let last = table.key_at(to - 1);
            position.push(last.source.to_string());
            position.push(last.key.clone());
            position.push(last.target.to_string());
        }
        proof {
            table.lemma_view();
            if more {
                let last = page_after::<Relationship>(
                    table.keys(),
                    position_view(after),
                    limit as nat,
                ).last();
                assert(last == table.keys()[to - 1]);
                assert(texts_view(position@) =~= relationship_position(last));
                lemma_relationship_bytes(last);
                reveal_strlit("record_snapshot.relationships.source_key_target_asc");
                lemma_byte_len_ascii("record_snapshot.relationships.source_key_target_asc"@);
                if byte_len(last.key) <= 255 {
                    lemma_token_fits(
                        "record_snapshot.relationships.source_key_target_asc"@,
                        self@.revision,
                        relationship_position(last),
                    );
                }
            }
        }
        let next_cursor = self.next_cursor(more, "record_snapshot.relationships.source_key_target_asc", position);
        proof {
            assert(relationships_view(items@) =~= table.keys().subrange(from as int, to as int));
        }
        Ok(CursorPage { items, next_cursor })
    }

    /// Traverses the Property definitions in key order.
    pub fn property_definitions_page(&self, limit: usize, cursor: Option<&ReadCursor>) -> (r: Result<
        CursorPage<PropertyDefinition>,
        CoreError,
    >)
        requires
            self.wf(),
        ensures
            ({
                let keys = in_order::<String>(self@.property_definitions.dom());
                let size = clamped_limit(limit);
                match r {
                    Ok(page) => match text_read(
                        cursor_of(cursor),
                        "record_snapshot.property_definitions.key_asc"@,
                        self@.revision,
                    ) {
                        Ok(after) => {
                            &&& property_definitions_at(page.items@, page_after::<String>(keys, after, size), self@)
                            &&& cursor_ends::<String>(
                                page.next_cursor,
                                keys,
                                after,
                                size,
                                "record_snapshot.property_definitions.key_asc"@,
                                self@.revision,
                                |k: <String as View>::V| seq![k],
                            )
                            &&& page.next_cursor is Some && byte_len(page_after::<String>(keys, after, size).last()) <= 255 ==> page.next_cursor->0@.len()
                                <= 8_192
                        },
                        Err(_) => false,
                    },
                    Err(e) => text_read(cursor_of(cursor), "record_snapshot.property_definitions.key_asc"@, self@.revision)
                        == Err::<Option<<String as View>::V>, ErrorView>(e@),
                }
            }),
            forall|k: <String as View>::V|
                cursor is Some && cursor->0@ == #[trigger] cursor_token(
                    "record_snapshot.property_definitions.key_asc"@,
                    self@.revision,
                    seq![k],
                ) && cursor->0@.len() <= 8_192 ==> r is Ok && text_read(
                    cursor_of(cursor),
                    "record_snapshot.property_definitions.key_asc"@,
                    self@.revision,
                ) == Ok::<Option<<String as View>::V>, ErrorView>(Some(k)),
    {
        let after = match self.after_string(cursor, "record_snapshot.property_definitions.key_asc") {
            Err(e) => return Err(e),
            Ok(after) => after,
        };
        let limit: usize = bounded_limit(limit);
        let table = &self.records.property_definitions;
        proof {
            table.lemma_view();
        }
        let (from, to) = page_bounds(table, &after, limit);
        let mut items: Vec<PropertyDefinition> = Vec::new();
        let mut i: usize = from;
        while i < to
            invariant
                table.wf(),
                from <= i <= to <= table.keys().len(),
                items@.len() == i - from,
                forall|j: int| 0 <= j < items@.len() ==> (#[trigger] items@[j])@ == table@[table.keys()[from + j]].definition,
            decreases to - i,
        {
            items.push(table.row_at(i).definition.clone());
            i = i + 1;
        }
        let more = to < table.len();
        let mut position: Vec<String> = Vec::new();
        if more {
            position.push(table.key_at(to - 1).clone());
        }
        proof {
            table.lemma_view();
            if more {
                let last = page_after::<String>(
                    table.keys(),
                    position_view(after),
                    limit as nat,
                ).last();
                assert(last == table.keys()[to - 1]);
                assert(texts_view(position@) =~= seq![last]);
                lemma_one_text_bytes(last);
                reveal_strlit("record_snapshot.property_definitions.key_asc");
                lemma_byte_len_ascii("record_snapshot.property_definitions.key_asc"@);
                if byte_len(last) <= 255 {
                    lemma_token_fits(
                        "record_snapshot.property_definitions.key_asc"@,
                        self@.revision,
                        seq![last],
                    );
                }
            }
        }
        let next_cursor = self.next_cursor(more, "record_snapshot.property_definitions.key_asc", position);
        Ok(CursorPage { items, next_cursor })
    }

    /// Traverses the Relationship definitions in key order.
    pub fn relationship_definitions_page(&self, limit: usize, cursor: Option<&ReadCursor>) -> (r: Result<
        CursorPage<RelationshipDefinition>,
        CoreError,
    >)
        requires
            self.wf(),
        ensures
            ({
                let keys = in_order::<String>(self@.relationship_definitions.dom());
                let size = clamped_limit(limit);
                match r {
                    Ok(page) => match text_read(
                        cursor_of(cursor),
                        "record_snapshot.relationship_definitions.key_asc"@,
                        self@.revision,
                    ) {
                        Ok(after) => {
                            &&& relationship_definitions_at(page.items@, page_after::<String>(keys, after, size), self@)
                            &&& cursor_ends::<String>(
                                page.next_cursor,
                                keys,
                                after,
                                size,
                                "record_snapshot.relationship_definitions.key_asc"@,
                                self@.revision,
                                |k: <String as View>::V| seq![k],
                            )
                            &&& page.next_cursor is Some && byte_len(page_after::<String>(keys, after, size).last()) <= 255 ==> page.next_cursor->0@.len()
                                <= 8_192
                        },
                        Err(_) => false,
                    },
                    Err(e) => text_read(cursor_of(cursor), "record_snapshot.relationship_definitions.key_asc"@, self@.revision)
                        == Err::<Option<<String as View>::V>, ErrorView>(e@),
                }
            }),
            forall|k: <String as View>::V|
                cursor is Some && cursor->0@ == #[trigger] cursor_token(
                    "record_snapshot.relationship_definitions.key_asc"@,
                    self@.revision,
                    seq![k],
                ) && cursor->0@.len() <= 8_192 ==> r is Ok && text_read(
                    cursor_of(cursor),
                    "record_snapshot.relationship_definitions.key_asc"@,
                    self@.revision,
                ) == Ok::<Option<<String as View>::V>, ErrorView>(Some(k)),
    {
        let after = match self.after_string(cursor, "record_snapshot.relationship_definitions.key_asc") {
            Err(e) => return Err(e),
            Ok(after) => after,
        };
        let limit: usize = bounded_limit(limit);
        let table = &self.records.relationship_definitions;
        proof {
            table.lemma_view();
        }
        let (from, to) = page_bounds(table, &after, limit);
        let mut items: Vec<RelationshipDefinition> = Vec::new();
        let mut i: usize = from;
        while i < to
            invariant
                table.wf(),
                from <= i <= to <= table.keys().len(),
                items@.len() == i - from,
                forall|j: int| 0 <= j < items@.len() ==> (#[trigger] items@[j])@ == table@[table.keys()[from + j]].definition,
            decreases to - i,
        {
            items.push(table.row_at(i).definition.clone());
            i = i + 1;
        }
        let more = to < table.len();
        let mut position: Vec<String> = Vec::new();
        if more {
            position.push(table.key_at(to - 1).clone());
        }
        proof {
            table.lemma_view();
            if more {
                let last = page_after::<String>(
                    table.keys(),
                    position_view(after),
                    limit as nat,
                ).last();
                assert(last == table.keys()[to - 1]);
                assert(texts_view(position@) =~= seq![last]);
                lemma_one_text_bytes(last);
                reveal_strlit("record_snapshot.relationship_definitions.key_asc");
                lemma_byte_len_ascii("record_snapshot.relationship_definitions.key_asc"@);
                if byte_len(last) <= 255 {
                    lemma_token_fits(
                        "record_snapshot.relationship_definitions.key_asc"@,
                        self@.revision,
                        seq![last],
                    );
                }
            }
        }
        let next_cursor = self.next_cursor(more, "record_snapshot.relationship_definitions.key_asc", position);
        Ok(CursorPage { items, next_cursor })
    }
}

/// Whether these are the Nodes of these IDs.
pub open spec fn nodes_at(nodes: Seq<Node>, ids: Seq<NodeId>, rows: Map<NodeId, NodeRowView>) -> bool {
    &&& nodes.len() == ids.len()
    &&& forall|i: int|
        0 <= i < nodes.len() ==> (#[trigger] nodes[i]).id == ids[i] && nodes[i].lifecycle_state
            == rows[ids[i]].lifecycle_state
}

/// Whether these are the Properties of these keys.
pub open spec fn properties_at(
    pairs: Seq<(String, PropertyValue)>,
    keys: Seq<Seq<char>>,
    rows: Map<Seq<char>, PropertyRowView>,
) -> bool {
    &&& pairs.len() == keys.len()
    &&& forall|i: int|
        0 <= i < pairs.len() ==> (#[trigger] pairs[i]).0@ == keys[i] && pairs[i].1@
            == rows[keys[i]].value
}

/// Whether these are the Property definitions of these keys.
pub open spec fn property_definitions_at(
    items: Seq<PropertyDefinition>,
    keys: Seq<Seq<char>>,
    m: RecordModel,
) -> bool {
    &&& items.len() == keys.len()
    &&& forall|i: int|
        0 <= i < items.len() ==> (#[trigger] items[i])@ == m.property_definitions[keys[i]].definition
}

/// Whether these are the Relationship definitions of these keys.
pub open spec fn relationship_definitions_at(
    items: Seq<RelationshipDefinition>,
    keys: Seq<Seq<char>>,
    m: RecordModel,
) -> bool {
    &&& items.len() == keys.len()
    &&& forall|i: int|
        0 <= i < items.len() ==> (#[trigger] items[i])@
            == m.relationship_definitions[keys[i]].definition
}

/// What a page of a snapshot shows is what the store holds: Nodes with their states, Properties with
/// their values, and definitions as they stand under their keys.
pub proof fn law_pages_show_what_the_store_holds(
    m: RecordModel,
    ids: Seq<NodeId>,
    nodes: Seq<Node>,
    keys: Seq<Seq<char>>,
    pairs: Seq<(String, PropertyValue)>,
    rows: Map<Seq<char>, PropertyRowView>,
    properties: Seq<PropertyDefinition>,
    relationships: Seq<RelationshipDefinition>,
    i: int,
)
    ensures
        nodes_at(nodes, ids, m.nodes) && 0 <= i < ids.len() ==> nodes.len() == ids.len()
            && nodes[i].id == ids[i] && nodes[i].lifecycle_state
            == m.nodes[nodes[i].id].lifecycle_state,
        properties_at(pairs, keys, rows) && 0 <= i < keys.len() ==> pairs.len() == keys.len()
            && pairs[i].0@ == keys[i] && pairs[i].1@ == rows[pairs[i].0@].value,
        property_definitions_at(properties, keys, m) && 0 <= i < keys.len() ==> properties.len()
            == keys.len() && properties[i]@ == m.property_definitions[keys[i]].definition,
        relationship_definitions_at(relationships, keys, m) && 0 <= i < keys.len()
            ==> relationships.len() == keys.len() && relationships[i]@
            == m.relationship_definitions[keys[i]].definition,
{
}

/// A cursor goes on in a snapshot only where it belongs to the same traversal at the same revision;
/// else it is a conflict. Without a cursor a traversal begins at the beginning.
pub proof fn law_snapshot_cursors_are_bound(
    token: Seq<char>,
    collection: Seq<char>,
    revision: u64,
    other: u64,
)
    ensures
        position_read(None, collection, revision) == Ok::<Option<Seq<Seq<char>>>, ErrorView>(None),
        match position_read(Some(token), collection, revision) {
            Ok(after) => after is Some && cursor_read(token, collection) is Ok && cursor_read(
                token,
                collection,
            )->Ok_0.revision == revision && cursor_read(token, collection)->Ok_0.after == after->0,
            Err(e) => e is Conflict,
        },
        other != revision && position_read(Some(token), collection, revision) is Ok
            ==> position_read(Some(token), collection, other) is Err,
        match text_read(Some(token), collection, revision) {
            Ok(text) => text is Some && position_read(Some(token), collection, revision) == Ok::<
                Option<Seq<Seq<char>>>,
                ErrorView,
            >(Some(seq![text->0])),
            Err(e) => e is Conflict,
        },
        node_id_read(Some(token), collection, revision) is Err ==> node_id_read(
            Some(token),
            collection,
            revision,
        )->Err_0 is Conflict,
        relationship_read(Some(token), collection, revision) is Err ==> relationship_read(
            Some(token),
            collection,
            revision,
        )->Err_0 is Conflict,
{
    match text_read(Some(token), collection, revision) {
        Ok(text) => {
            let after = position_read(Some(token), collection, revision)->Ok_0->0;
            assert(after =~= seq![text->0]);
        },
        Err(_) => {},
    }
}

} // verus!
