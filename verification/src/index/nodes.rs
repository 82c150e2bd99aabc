//! Listing the Nodes that the Index shows, latest changes first.
use vstd::prelude::*;
use crate::api::{
    bounded_limit, clamped_limit, page_fault, page_of, texts_view, window_bounds, CursorPage,
    ReadCursor, ReadPage,
};
use crate::cursor::{
    cursor_read, cursor_token, decode_cursor, encode_cursor, lemma_byte_len_ascii,
    lemma_decimal_text, lemma_token_length, total_bytes, unreadable_cursor, PayloadView,
};
use crate::error::{conflict, CoreError, ErrorView};
use crate::id::{id_of, id_read, NodeId};
use crate::index::model::{IndexModel, IndexStore};
use crate::node::{LifecycleState, Node};
use crate::paging::{lemma_place, more_after, page_after};
use crate::record_store::stable_scan::cursor_of;
use crate::table::{in_order, lemma_next_is_new, Table, TableKey, TableRow};
use crate::text::{decimal, decimal_of, law_decimal_round_trip, parse_u64, u64_of};

verus! {

/// A Node at its place in the listing: later changes first, then by ID.
#[derive(Debug, Clone, Copy)]
pub struct NodePlace {
    pub modified_revision: u64,
    pub id: NodeId,
}

impl View for NodePlace {
    type V = NodePlace;

    open spec fn view(&self) -> NodePlace {
        *self
    }
}

impl TableKey for NodePlace {
    open spec fn before(a: NodePlace, b: NodePlace) -> bool {
        if a.modified_revision != b.modified_revision {
            a.modified_revision > b.modified_revision
        } else {
            NodeId::before(a.id, b.id)
        }
    }

    proof fn before_irreflexive(a: NodePlace) {
        NodeId::before_irreflexive(a.id);
    }

    proof fn before_transitive(a: NodePlace, b: NodePlace, c: NodePlace) {
        if a.modified_revision == b.modified_revision && b.modified_revision
            == c.modified_revision {
            NodeId::before_transitive(a.id, b.id, c.id);
        }
    }

    proof fn before_total(a: NodePlace, b: NodePlace) {
        NodeId::before_total(a.id, b.id);
    }

    fn is_before(&self, other: &NodePlace) -> (r: bool) {
        if self.modified_revision != other.modified_revision {
            self.modified_revision > other.modified_revision
        } else {
            self.id.is_before(&other.id)
        }
    }

    fn copy_key(&self) -> (r: NodePlace) {
        *self
    }
}

/// The state of a listed Node.
#[derive(Debug, Clone, Copy)]
pub struct StateRow {
    pub lifecycle_state: LifecycleState,
}

impl View for StateRow {
    type V = LifecycleState;

    open spec fn view(&self) -> LifecycleState {
        self.lifecycle_state
    }
}

impl TableRow for StateRow {
    open spec fn sound(&self) -> bool {
        true
    }

    fn copy_row(&self) -> (r: StateRow) {
        *self
    }
}

/// The Nodes that were last changed at a revision or before it, each at its place.
pub open spec fn places(x: IndexModel, revision: u64) -> Set<NodePlace> {
    Set::new(
        |p: NodePlace|
            x.nodes.dom().contains(p.id) && x.nodes[p.id].modified_revision == p.modified_revision
                && p.modified_revision <= revision,
    )
}

/// Whether these are the Nodes of these places.
pub open spec fn nodes_of(nodes: Seq<Node>, listed: Seq<NodePlace>, x: IndexModel) -> bool {
    &&& nodes.len() == listed.len()
    &&& forall|i: int|
        0 <= i < nodes.len() ==> (#[trigger] nodes[i]).id == listed[i].id
            && nodes[i].lifecycle_state == x.nodes[listed[i].id].lifecycle_state
}

/// The name of the traversal of the Nodes.
pub open spec fn nodes_collection() -> Seq<char> {
    "index.nodes.modified_revision_desc.uuid_asc"@
}

/// How the traversal writes a place.
pub open spec fn place_position(p: NodePlace) -> Seq<Seq<char>> {
    seq![decimal_of(p.modified_revision as nat), p.id.text()]
}

/// Why a cursor whose payload was read is refused, or where it goes on.
pub open spec fn place_in(payload: PayloadView, current: u64) -> Result<NodePlace, ErrorView> {
    if payload.revision > current {
        Err(
            ErrorView::Conflict(
                "read cursor is stale because the Index revision moved backwards"@,
            ),
        )
    } else if payload.after.len() != 2 {
        Err(unreadable_cursor())
    } else {
        match u64_of(payload.after[0]) {
            None => Err(unreadable_cursor()),
            Some(modified) => if payload.revision > i64::MAX || modified > i64::MAX || modified == 0
                || modified > payload.revision {
                Err(
                    ErrorView::Conflict(
                        "read cursor revisions are outside the traversal range"@,
                    ),
                )
            } else {
                match id_read(payload.after[1]) {
                    Err(_) => Err(unreadable_cursor()),
                    Ok(bytes) => Ok(NodePlace { modified_revision: modified, id: id_of(bytes) }),
                }
            },
        }
    }
}

/// Where a traversal goes on: the revision it was begun at, and the place it has reached.
pub open spec fn traversal_read(token: Option<Seq<char>>, current: u64) -> Result<
    (u64, Option<NodePlace>),
    ErrorView,
> {
    match token {
        None => Ok((current, None)),
        Some(t) => match cursor_read(t, nodes_collection()) {
            Err(fault) => Err(fault),
            Ok(payload) => match place_in(payload, current) {
                Err(fault) => Err(fault),
                Ok(place) => Ok((payload.revision, Some(place))),
            },
        },
    }
}

/// Whether a token that the traversal made of a place, for an Index that has not fallen back since,
/// goes on after that place.
pub open spec fn resumes(token: Option<Seq<char>>, current: u64) -> bool {
    forall|revision: u64, p: NodePlace|
        token is Some && p.id.valid() && 0 < p.modified_revision <= revision <= current && token->0
            == #[trigger] cursor_token(nodes_collection(), revision, place_position(p))
            ==> traversal_read(token, current) == Ok::<(u64, Option<NodePlace>), ErrorView>(
            (revision, Some(p)),
        )
}

/// A call for a page of the traversal, and what it was answered: the places of the Nodes shown, and
/// the token of the next page.
pub struct NodeCall {
    pub index: IndexModel,
    pub limit: usize,
    pub cursor: Option<Seq<char>>,
    pub shown: Seq<NodePlace>,
    pub next: Option<Seq<char>>,
}

/// A call that was answered with the page that its cursor leads to.
pub open spec fn node_call(
    x: IndexModel,
    limit: usize,
    cursor: Option<Seq<char>>,
    next: Option<ReadCursor>,
) -> NodeCall {
    NodeCall {
        index: x,
        limit,
        cursor,
        shown: match traversal_read(cursor, x.applied_revision) {
            Ok((revision, after)) => page_after::<NodePlace>(
                in_order::<NodePlace>(places(x, revision)),
                after,
                clamped_limit(limit),
            ),
            Err(_) => Seq::empty(),
        },
        next: match next {
            Some(c) => Some(c@),
            None => None,
        },
    }
}

/// Whether a call was answered as it should: with the Nodes after the place that its cursor leads
/// to, as many as its limit, and with a token of the last of them exactly where more are left.
pub open spec fn answers(call: NodeCall) -> bool {
    &&& resumes(call.cursor, call.index.applied_revision)
    &&& match traversal_read(call.cursor, call.index.applied_revision) {
        Ok((revision, after)) => {
            let keys = in_order::<NodePlace>(places(call.index, revision));
            let size = clamped_limit(call.limit);
            &&& call.shown == page_after::<NodePlace>(keys, after, size)
            &&& match call.next {
                None => !more_after::<NodePlace>(keys, after, size),
                Some(next) => more_after::<NodePlace>(keys, after, size) && next == cursor_token(
                    nodes_collection(),
                    revision,
                    place_position(call.shown.last()),
                ),
            }
        },
        Err(_) => false,
    }
}

proof fn lemma_place_token_fits(revision: u64, p: NodePlace)
    ensures
        cursor_token(nodes_collection(), revision, place_position(p)).len() <= 8_192,
{
    let after = place_position(p);
    lemma_token_length(nodes_collection(), revision, after);
    reveal_strlit("index.nodes.modified_revision_desc.uuid_asc");
    lemma_byte_len_ascii(nodes_collection());
    NodeId::lemma_text_length(p.id);
    lemma_byte_len_ascii(p.id.text());
    lemma_decimal_text(p.modified_revision);
    reveal_with_fuel(total_bytes, 3);
}

impl IndexStore {
    /// The Nodes that were last changed at a revision or before it, at their places.
    fn listing(&self, revision: u64) -> (r: Table<NodePlace, StateRow>)
        requires
            self.wf(),
        ensures
            r.wf(),
            r@.dom() == places(self@, revision),
            forall|p: NodePlace| #[trigger]
                r@.dom().contains(p) ==> r@[p] == self@.nodes[p.id].lifecycle_state,
    {
        let nodes = &self.nodes;
        let ghost x = self@;
        let mut r: Table<NodePlace, StateRow> = Table::new();
        let mut i: usize = 0;
        while i < nodes.len()
            invariant
                self.wf(),
                nodes == &self.nodes,
                x == self@,
                r.wf(),
                i <= nodes.keys().len(),
                forall|p: NodePlace| #[trigger]
                    r@.dom().contains(p) <==> places(x, revision).contains(p)
                        && nodes.keys().subrange(0, i as int).contains(p.id),
                forall|p: NodePlace| #[trigger]
                    r@.dom().contains(p) ==> r@[p] == x.nodes[p.id].lifecycle_state,
            decreases nodes.keys().len() - i,
        {
            proof {
                nodes.lemma_view();
                lemma_next_is_new::<NodeId>(nodes.keys(), i as int);
            }
            let id = *nodes.key_at(i);
            let row = nodes.row_at(i);
            if row.modified_revision <= revision {
                let place = NodePlace { modified_revision: row.modified_revision, id };
                r.insert(place, StateRow { lifecycle_state: row.lifecycle_state });
            }
            i = i + 1;
        }
        proof {
            nodes.lemma_view();
            assert(nodes.keys().subrange(0, i as int) =~= nodes.keys());
            assert(r@.dom() =~= places(x, revision));
        }
        r
    }

    /// The Nodes of a listing from one place of it to another.
    fn listed(&self, table: &Table<NodePlace, StateRow>, from: usize, to: usize) -> (r: Vec<Node>)
        requires
            table.wf(),
            from <= to <= table.keys().len(),
            forall|p: NodePlace| #[trigger]
                table@.dom().contains(p) ==> table@[p] == self@.nodes[p.id].lifecycle_state,
        ensures
            nodes_of(r@, table.keys().subrange(from as int, to as int), self@),
    {
        let mut r: Vec<Node> = Vec::new();
        let mut i: usize = from;
        while i < to
            invariant
                table.wf(),
                from <= i <= to <= table.keys().len(),
                forall|p: NodePlace| #[trigger]
                    table@.dom().contains(p) ==> table@[p] == self@.nodes[p.id].lifecycle_state,
                nodes_of(r@, table.keys().subrange(from as int, i as int), self@),
            decreases to - i,
        {
            let place = table.key_at(i);
            r.push(Node { id: place.id, lifecycle_state: table.row_at(i).lifecycle_state });
            i = i + 1;
        }
        r
    }

    /// All Nodes, latest changes first.
    pub fn list_nodes(&self) -> (r: Vec<Node>)
        requires
            self.wf(),
        ensures
            nodes_of(r@, in_order::<NodePlace>(places(self@, u64::MAX)), self@),
    {
        let table = self.listing(u64::MAX);
        let len: usize = table.len();
        proof {
            table.lemma_view();
            assert(table.keys().subrange(0, len as int) =~= table.keys());
        }
        self.listed(&table, 0, len)
    }

    /// A window of the Nodes, latest changes first.
    pub fn list_nodes_page(&self, page: ReadPage) -> (r: Result<Vec<Node>, CoreError>)
        requires
            self.wf(),
        ensures
            match r {
                Ok(nodes) => page_fault(page) is None && nodes_of(
                    nodes@,
                    page_of(in_order::<NodePlace>(places(self@, u64::MAX)), page),
                    self@,
                ),
                Err(e) => page_fault(page) == Some(e@),
            },
    {
        match page.sql_offset() {
            Err(e) => Err(e),
            Ok(_) => {
                let table = self.listing(u64::MAX);
                let (from, to) = window_bounds(
                    page.offset,
                    page.sql_limit() as usize,
                    table.len(),
                );
                proof {
                    table.lemma_view();
                }
                Ok(self.listed(&table, from, to))
            },
        }
    }

    /// Where a traversal of the Nodes goes on.
    fn traversal(&self, cursor: Option<&ReadCursor>) -> (r: Result<
        (u64, Option<NodePlace>),
        CoreError,
    >)
        requires
            self.wf(),
        ensures
            match r {
                Ok(at) => traversal_read(cursor_of(cursor), self@.applied_revision) == Ok::<
                    (u64, Option<NodePlace>),
                    ErrorView,
                >(at),
                Err(e) => traversal_read(cursor_of(cursor), self@.applied_revision) == Err::<
                    (u64, Option<NodePlace>),
                    ErrorView,
                >(e@),
            },
            forall|revision: u64, p: NodePlace|
                cursor is Some && p.id.valid() && 0 < p.modified_revision <= revision
                    <= self@.applied_revision && cursor->0@ == #[trigger] cursor_token(
                    nodes_collection(),
                    revision,
                    place_position(p),
                ) ==> r is Ok && r->Ok_0 == (revision, Some(p)),
    {
        let current: u64 = self.applied_revision;
        match cursor {
            None => Ok((current, None)),
            Some(cursor) => {
                proof {
                    assert forall|revision: u64, p: NodePlace|
                        cursor@ == #[trigger] cursor_token(
                            nodes_collection(),
                            revision,
                            place_position(p),
                        ) implies cursor@.len() <= 8_192 by {
                        lemma_place_token_fits(revision, p);
                    }
                }
                let payload = match decode_cursor(
                    cursor,
                    "index.nodes.modified_revision_desc.uuid_asc",
                ) {
                    Err(e) => return Err(e),
                    Ok(payload) => payload,
                };
                let ghost after = payload@.after;
                proof {
                    assert forall|revision: u64, p: NodePlace|
                        cursor@ == #[trigger] cursor_token(
                            nodes_collection(),
                            revision,
                            place_position(p),
                        ) implies payload.revision == revision && after == place_position(p)
                        && u64_of(decimal_of(p.modified_revision as nat)) == Some(
                        p.modified_revision,
                    ) by {
                        lemma_place_token_fits(revision, p);
                        law_decimal_round_trip(p.modified_revision);
                    }
                    assert(after.len() == 2 ==> after[0] == payload.after@[0]@ && after[1]
                        == payload.after@[1]@);
                }
                if payload.revision > current {
                    return Err(
                        conflict("read cursor is stale because the Index revision moved backwards"),
                    );
                }
                if payload.after.len() != 2 {
                    return Err(conflict("invalid or unsupported read cursor"));
                }
                let modified_revision: u64 = match parse_u64(payload.after[0].as_str()) {
                    None => return Err(conflict("invalid or unsupported read cursor")),
                    Some(n) => n,
                };
                if payload.revision > i64::MAX as u64 || modified_revision > i64::MAX as u64
                    || modified_revision == 0 || modified_revision > payload.revision {
                    return Err(conflict("read cursor revisions are outside the traversal range"));
                }
                let id = match NodeId::parse(payload.after[1].as_str()) {
                    Err(_) => return Err(conflict("invalid or unsupported read cursor")),
                    Ok(id) => id,
                };
                proof {
                    NodeId::lemma_id_of(id);
                }
                Ok((payload.revision, Some(NodePlace { modified_revision, id })))
            },
        }
    }

    /// One page of a traversal of the Nodes, latest changes first. The traversal shows what was
    /// last changed by the revision it was begun at, so that later changes do not enter it.
    pub fn list_nodes_cursor(&self, limit: usize, cursor: Option<&ReadCursor>) -> (r: Result<
        CursorPage<Node>,
        CoreError,
    >)
        requires
            self.wf(),
        ensures
            match r {
                Ok(page) => {
                    let call = node_call(self@, limit, cursor_of(cursor), page.next_cursor);
                    answers(call) && nodes_of(page.items@, call.shown, self@)
                },
                Err(e) => traversal_read(cursor_of(cursor), self@.applied_revision) == Err::<
                    (u64, Option<NodePlace>),
                    ErrorView,
                >(e@),
            },
            resumes(cursor_of(cursor), self@.applied_revision),
    {
        let (revision, after) = match self.traversal(cursor) {
            Err(e) => return Err(e),
            Ok(at) => at,
        };
        let limit: usize = bounded_limit(limit);
        let table = self.listing(revision);
        proof {
            table.lemma_view();
        }
        let begin: usize = match &after {
            None => 0,
            Some(place) => {
                let n: usize = table.count_through(place);
                proof {
                    lemma_place::<NodePlace>(table.keys(), *place, n as nat);
                }
                n
            },
        };
        let (from, to) = window_bounds(begin as u64, limit, table.len());
        let items = self.listed(&table, from, to);
        let next_cursor = if to < table.len() {
            let last = table.key_at(to - 1);
            let mut position: Vec<String> = Vec::new();
            position.push(decimal(last.modified_revision as u128));
            position.push(last.id.to_string());
            proof {
                assert(texts_view(position@) =~= place_position(*last));
            }
            Some(
                encode_cursor(
                    "index.nodes.modified_revision_desc.uuid_asc",
                    revision,
                    &position,
                ),
            )
        } else {
            None
        };
        Ok(CursorPage { items, next_cursor })
    }
}

/// A cursor of the listing goes on only where it was not made at a later revision than the Index
/// shows, and names a revision and an ID, the revision not later than the one it was made at. It then
/// goes on at that revision behind that place.
pub proof fn law_listing_cursors_are_checked(token: Option<Seq<char>>, current: u64)
    ensures
        token is None ==> traversal_read(token, current) == Ok::<(u64, Option<NodePlace>), ErrorView>(
            (current, None),
        ),
        match traversal_read(token, current) {
            Ok((revision, after)) => {
                &&& revision <= current
                &&& token is Some ==> {
                    let payload = cursor_read(token->0, nodes_collection());
                    &&& payload is Ok
                    &&& payload->Ok_0.revision == revision
                    &&& payload->Ok_0.after.len() == 2
                    &&& after is Some
                    &&& 0 < after->0.modified_revision <= revision
                    &&& u64_of(payload->Ok_0.after[0]) == Some(after->0.modified_revision)
                    &&& id_read(payload->Ok_0.after[1]) is Ok
                    &&& after->0.id == id_of(id_read(payload->Ok_0.after[1])->Ok_0)
                }
            },
            Err(e) => token is Some && e is Conflict,
        },
{
}

} // verus!
