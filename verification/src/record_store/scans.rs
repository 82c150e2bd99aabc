//! What holds of a whole traversal of one stable snapshot.
use vstd::prelude::*;
use crate::api::{clamped_limit, ReadCursor, Relationship, RelationshipView};
use crate::cursor::{byte_len, cursor_token, lemma_byte_len_ascii};
use crate::error::ErrorView;
use crate::id::NodeId;
use crate::paging::{
    law_pages_join, law_traversal_is_complete, lemma_in_order_lists, page_after, place_after,
    Traversal,
};
use crate::record_store::laws::consistent;
use crate::record_store::model::RecordModel;
use crate::record_store::stable_scan::{
    cursor_ends, lemma_one_text_bytes, lemma_relationship_bytes, lemma_token_fits,
    node_id_position, node_id_read, relationship_position, relationship_read, text_read,
};
use crate::table::{ascending, in_order, TableKey};

verus! {

/// A call for a page of a snapshot, and what it was answered.
pub struct ScanCall<V> {
    pub limit: usize,
    pub cursor: Option<Seq<char>>,
    pub shown: Seq<V>,
    pub next: Option<ReadCursor>,
}

/// A traversal of a snapshot: its name, the revision, how it writes a position, how it reads one,
/// and which positions it can read.
#[verifier::reject_recursive_types(V)]
pub struct Scan<V> {
    pub collection: Seq<char>,
    pub revision: u64,
    pub position: spec_fn(V) -> Seq<Seq<char>>,
    pub read: spec_fn(Option<Seq<char>>) -> Result<Option<V>, ErrorView>,
    pub valid: spec_fn(V) -> bool,
}

/// Whether a call was answered with the page that its cursor leads to, and with a cursor of its last
/// key exactly where more are left.
pub open spec fn scan_answers<K: TableKey>(
    scan: Scan<K::V>,
    keys: Seq<K::V>,
    call: ScanCall<K::V>,
) -> bool {
    match (scan.read)(call.cursor) {
        Ok(after) => call.shown == page_after::<K>(keys, after, clamped_limit(call.limit))
            && cursor_ends::<K>(
            call.next,
            keys,
            after,
            clamped_limit(call.limit),
            scan.collection,
            scan.revision,
            scan.position,
        ),
        Err(_) => false,
    }
}

/// Whether a cursor that was made of a position, and is not too long to be read, leads to it.
pub open spec fn scan_resumes<V>(scan: Scan<V>, cursor: Option<Seq<char>>) -> bool {
    forall|k: V|
        (scan.valid)(k) && cursor is Some && cursor->0 == #[trigger] cursor_token(
            scan.collection,
            scan.revision,
            (scan.position)(k),
        ) && cursor->0.len() <= 8_192 ==> (scan.read)(cursor) == Ok::<Option<V>, ErrorView>(Some(k))
}

/// Whether these calls are one traversal of these keys: the first without a cursor, each other one
/// with the cursor that the one before it was answered, and all of them answered as they should.
pub open spec fn is_scan<K: TableKey>(
    scan: Scan<K::V>,
    keys: Seq<K::V>,
    calls: Seq<ScanCall<K::V>>,
) -> bool {
    &&& calls.len() > 0
    &&& calls[0].cursor is None
    &&& forall|i: int|
        0 <= i < calls.len() ==> scan_answers::<K>(scan, keys, #[trigger] calls[i])
            && scan_resumes(scan, calls[i].cursor)
    &&& forall|i: int, j: int|
        0 <= i && j == i + 1 && j < calls.len() ==> (#[trigger] calls[i]).next is Some && (
        #[trigger] calls[j]).cursor == Some(calls[i].next->0@)
}

/// What the first `n` calls showed, one after the other.
pub open spec fn scanned<V>(calls: Seq<ScanCall<V>>, n: nat) -> Seq<V>
    decreases n,
{
    if n == 0 {
        Seq::empty()
    } else {
        scanned(calls, (n - 1) as nat) + calls[n - 1].shown
    }
}

spec fn scan_of<V>(keys: Seq<V>, calls: Seq<ScanCall<V>>) -> Traversal<V> {
    Traversal {
        listings: Seq::new(calls.len(), |i: int| keys),
        limits: Seq::new(calls.len(), |i: int| clamped_limit(calls[i].limit)),
    }
}

/// Whether all these keys make positions that can be read again.
pub open spec fn scannable<K: TableKey>(scan: Scan<K::V>, keys: Seq<K::V>) -> bool {
    &&& ascending::<K>(keys)
    &&& (scan.read)(None) == Ok::<Option<K::V>, ErrorView>(None)
    &&& forall|i: int|
        0 <= i < keys.len() ==> (scan.valid)(#[trigger] keys[i]) && cursor_token(
            scan.collection,
            scan.revision,
            (scan.position)(keys[i]),
        ).len() <= 8_192
}

proof fn lemma_scan_pages<K: TableKey>(
    scan: Scan<K::V>,
    keys: Seq<K::V>,
    calls: Seq<ScanCall<K::V>>,
    n: nat,
)
    requires
        scannable::<K>(scan, keys),
        is_scan::<K>(scan, keys, calls),
        n < calls.len(),
    ensures
        ({
            let t = scan_of(keys, calls);
            &&& (scan.read)(calls[n as int].cursor) == Ok::<Option<K::V>, ErrorView>(
                t.position::<K>(n),
            )
            &&& calls[n as int].shown == t.page::<K>(n)
            &&& t.goes_on::<K>(n) <==> calls[n as int].next is Some
        }),
    decreases n,
{
    let t = scan_of(keys, calls);
    let call = calls[n as int];
    assert(scan_answers::<K>(scan, keys, call) && scan_resumes(scan, call.cursor));
    if n > 0 {
        let i = (n - 1) as nat;
        lemma_scan_pages::<K>(scan, keys, calls, i);
        let former = calls[i as int];
        assert(scan_answers::<K>(scan, keys, former));
        assert(former.next is Some && call.cursor == Some(former.next->0@));
        let begin = place_after::<K>(keys, t.position::<K>(i));
        law_pages_join::<K>(keys, t.position::<K>(i), clamped_limit(former.limit));
        let last = former.shown.last();
        assert(last == keys[begin + clamped_limit(former.limit) - 1]);
        assert(call.cursor == Some(
            cursor_token(scan.collection, scan.revision, (scan.position)(last)),
        ));
    }
}

proof fn lemma_scanned_is_joined<K: TableKey>(
    scan: Scan<K::V>,
    keys: Seq<K::V>,
    calls: Seq<ScanCall<K::V>>,
    n: nat,
)
    requires
        scannable::<K>(scan, keys),
        is_scan::<K>(scan, keys, calls),
        n <= calls.len(),
    ensures
        scanned(calls, n) == scan_of(keys, calls).joined::<K>(n),
    decreases n,
{
    if n > 0 {
        lemma_scanned_is_joined::<K>(scan, keys, calls, (n - 1) as nat);
        lemma_scan_pages::<K>(scan, keys, calls, (n - 1) as nat);
    }
}

/// A traversal of a snapshot to its end, with any limits, shows every key once, in order, and
/// nothing else. No page is longer than its limit.
pub proof fn law_scan_is_complete<K: TableKey>(
    scan: Scan<K::V>,
    keys: Seq<K::V>,
    calls: Seq<ScanCall<K::V>>,
)
    requires
        scannable::<K>(scan, keys),
        is_scan::<K>(scan, keys, calls),
        calls.last().next is None,
    ensures
        scanned(calls, calls.len()) == keys,
        forall|i: int|
            0 <= i < calls.len() ==> (#[trigger] calls[i]).shown.len() <= clamped_limit(
                calls[i].limit,
            ) <= 1_000,
{
    let t = scan_of(keys, calls);
    assert forall|i: nat| i + 1 < calls.len() implies #[trigger] t.goes_on::<K>(i) by {
        lemma_scan_pages::<K>(scan, keys, calls, i);
        let next = calls[(i + 1) as int];
        assert(calls[i as int].next is Some);
    }
    lemma_scan_pages::<K>(scan, keys, calls, (calls.len() - 1) as nat);
    lemma_scanned_is_joined::<K>(scan, keys, calls, calls.len());
    law_traversal_is_complete::<K>(keys, t, calls.len());
    assert forall|i: int| 0 <= i < calls.len() implies (#[trigger] calls[i]).shown.len()
        <= clamped_limit(calls[i].limit) <= 1_000 by {
        lemma_scan_pages::<K>(scan, keys, calls, i as nat);
        assert(t.limits[i] == clamped_limit(calls[i].limit));
    }
}

/// The traversal of the Relationships of a snapshot.
pub open spec fn relationship_scan(m: RecordModel) -> Scan<RelationshipView> {
    let collection = "record_snapshot.relationships.source_key_target_asc"@;
    Scan {
        collection,
        revision: m.revision,
        position: |k: RelationshipView| relationship_position(k),
        read: |token: Option<Seq<char>>| relationship_read(token, collection, m.revision),
        valid: |k: RelationshipView| k.source.valid() && k.target.valid(),
    }
}

/// A traversal of the Relationships of a snapshot to its end, with any limits, shows all of them,
/// those with tombstoned or purged ends too, each once, by source, key and target.
pub proof fn law_relationship_scan_is_complete(
    m: RecordModel,
    calls: Seq<ScanCall<RelationshipView>>,
)
    requires
        consistent(m),
        m.relationships.dom().finite(),
        forall|r: RelationshipView| #[trigger]
            m.relationships.dom().contains(r) ==> r.source.valid() && r.target.valid(),
        is_scan::<Relationship>(
            relationship_scan(m),
            in_order::<Relationship>(m.relationships.dom()),
            calls,
        ),
        calls.last().next is None,
    ensures
        scanned(calls, calls.len()) == in_order::<Relationship>(m.relationships.dom()),
        ascending::<Relationship>(scanned(calls, calls.len())),
        forall|r: RelationshipView|
            scanned(calls, calls.len()).contains(r) <==> #[trigger] m.relationships.dom().contains(
                r,
            ),
        forall|i: int|
            0 <= i < calls.len() ==> (#[trigger] calls[i]).shown.len() <= clamped_limit(
                calls[i].limit,
            ) <= 1_000,
{
    let scan = relationship_scan(m);
    let keys = in_order::<Relationship>(m.relationships.dom());
    lemma_in_order_lists::<Relationship>(m.relationships.dom());
    reveal_strlit("record_snapshot.relationships.source_key_target_asc");
    lemma_byte_len_ascii(scan.collection);
    assert forall|i: int| 0 <= i < keys.len() implies (scan.valid)(#[trigger] keys[i])
        && cursor_token(scan.collection, scan.revision, (scan.position)(keys[i])).len()
        <= 8_192 by {
        assert(keys.contains(keys[i]));
        assert(m.relationships.dom().contains(keys[i]));
        lemma_relationship_bytes(keys[i]);
        lemma_token_fits(scan.collection, scan.revision, relationship_position(keys[i]));
    }
    law_scan_is_complete::<Relationship>(scan, keys, calls);
}

/// A traversal of a snapshot by ID.
pub open spec fn id_scan(collection: Seq<char>, revision: u64) -> Scan<NodeId> {
    Scan {
        collection,
        revision,
        position: |k: NodeId| node_id_position(k),
        read: |token: Option<Seq<char>>| node_id_read(token, collection, revision),
        valid: |k: NodeId| k.valid(),
    }
}

/// A traversal by ID, of the issued IDs or the Nodes of a snapshot, to its end, with any limits,
/// shows all of them, each once, in order.
pub proof fn law_id_scan_is_complete(
    ids: Set<NodeId>,
    collection: Seq<char>,
    revision: u64,
    calls: Seq<ScanCall<NodeId>>,
)
    requires
        ids.finite(),
        forall|id: NodeId| #[trigger] ids.contains(id) ==> id.valid(),
        byte_len(collection) <= 80,
        is_scan::<NodeId>(id_scan(collection, revision), in_order::<NodeId>(ids), calls),
        calls.last().next is None,
    ensures
        scanned(calls, calls.len()) == in_order::<NodeId>(ids),
        forall|i: int|
            0 <= i < calls.len() ==> (#[trigger] calls[i]).shown.len() <= clamped_limit(
                calls[i].limit,
            ) <= 1_000,
{
    let scan = id_scan(collection, revision);
    let keys = in_order::<NodeId>(ids);
    lemma_in_order_lists::<NodeId>(ids);
    assert forall|i: int| 0 <= i < keys.len() implies (scan.valid)(#[trigger] keys[i])
        && cursor_token(scan.collection, scan.revision, (scan.position)(keys[i])).len()
        <= 8_192 by {
        assert(keys.contains(keys[i]));
        assert(ids.contains(keys[i]));
        NodeId::lemma_text_length(keys[i]);
        lemma_byte_len_ascii(keys[i].text());
        lemma_one_text_bytes(keys[i].text());
        lemma_token_fits(collection, revision, node_id_position(keys[i]));
    }
    law_scan_is_complete::<NodeId>(scan, keys, calls);
}

/// A traversal of a snapshot by key.
pub open spec fn key_scan(collection: Seq<char>, revision: u64) -> Scan<Seq<char>> {
    Scan {
        collection,
        revision,
        position: |k: Seq<char>| seq![k],
        read: |token: Option<Seq<char>>| text_read(token, collection, revision),
        valid: |k: Seq<char>| true,
    }
}

/// A traversal by key, of the Properties of a Node or the definitions of a snapshot, to its end,
/// with any limits, shows all of them, each once, in order.
pub proof fn law_key_scan_is_complete(
    texts: Set<Seq<char>>,
    collection: Seq<char>,
    revision: u64,
    calls: Seq<ScanCall<Seq<char>>>,
)
    requires
        texts.finite(),
        forall|k: Seq<char>| #[trigger] texts.contains(k) ==> byte_len(k) <= 255,
        byte_len(collection) <= 80,
        is_scan::<String>(key_scan(collection, revision), in_order::<String>(texts), calls),
        calls.last().next is None,
    ensures
        scanned(calls, calls.len()) == in_order::<String>(texts),
        forall|i: int|
            0 <= i < calls.len() ==> (#[trigger] calls[i]).shown.len() <= clamped_limit(
                calls[i].limit,
            ) <= 1_000,
{
    let scan = key_scan(collection, revision);
    let keys = in_order::<String>(texts);
    lemma_in_order_lists::<String>(texts);
    assert forall|i: int| 0 <= i < keys.len() implies (scan.valid)(#[trigger] keys[i])
        && cursor_token(scan.collection, scan.revision, (scan.position)(keys[i])).len()
        <= 8_192 by {
        assert(keys.contains(keys[i]));
        assert(texts.contains(keys[i]));
        lemma_one_text_bytes(keys[i]);
        lemma_token_fits(collection, revision, seq![keys[i]]);
    }
    law_scan_is_complete::<String>(scan, keys, calls);
}

} // verus!
