//! What the Index takes from the Record Store and from content, and what a search makes of words and
//! rows.
use vstd::prelude::*;
use crate::api::{
    DerivedRelationshipInput, IndexRebuildReason, ReconcileOutcome, RelationshipView,
    SearchDocumentInput,
};
use crate::error::ErrorView;
use crate::id::{id_of, id_read, NodeId};
use crate::index::content::{
    add_content, add_documents, add_links, derived_key, replace_node_result, without_content,
    without_content_of,
};
use crate::index::model::{DerivedKeyView, FailurePoint, IndexModel};
use crate::index::projection::{
    all_there, indexed_definition_ok, indexed_node_ok, left_by_reconcile, patched_index,
    rebuild_fault, rebuilt_index, reconcile_fault, reconcile_outcome, reconciled,
};
use crate::index::search::{
    hit_limit, hits_of, is_hit, match_text, word_count, words_of, words_so_far, HitView, SearchRow,
};
use crate::record_store::model::RecordModel;
use crate::record_store::projection::{delta_since, DeltaView, PatchView};
use crate::text::{char_is_alphanumeric, is_blank};

verus! {

/// Whether an Index has of every Node its state, its Properties and the revision it was changed at,
/// of every Relationship that revision, and every definition, and nothing that the store has not.
pub open spec fn mirrors(x: IndexModel, m: RecordModel) -> bool {
    &&& x.applied_revision == m.revision
    &&& x.nodes.dom() == m.nodes.dom()
    &&& forall|id: NodeId| #[trigger]
        m.nodes.dom().contains(id) ==> x.nodes[id].lifecycle_state == m.nodes[id].lifecycle_state
            && x.nodes[id].modified_revision == m.nodes[id].modified_revision
            && x.nodes[id].properties == m.nodes[id].properties
    &&& x.relationships.dom() == m.relationships.dom()
    &&& forall|r: RelationshipView| #[trigger]
        m.relationships.dom().contains(r) ==> x.relationships[r]
            == m.relationships[r].modified_revision
    &&& x.property_definitions == m.property_definitions
    &&& x.relationship_definitions == m.relationship_definitions
}

/// An Index shows a store exactly where it mirrors its facts, and one that is built anew does so,
/// without any content.
pub proof fn law_index_mirrors_the_store(x: IndexModel, m: RecordModel)
    ensures
        x.shows(m) ==> mirrors(x, m),
        mirrors(x, m) ==> x.shows(m),
        mirrors(rebuilt_index(m), m),
        forall|k: Seq<char>| !rebuilt_index(m).documents.dom().contains(k),
        forall|k: DerivedKeyView| !rebuilt_index(m).derived.dom().contains(k),
{
    let y = rebuilt_index(m);
    assert(y.nodes.dom() =~= m.nodes.dom());
    assert(y.relationships.dom() =~= m.relationships.dom());
    if x.shows(m) {
        assert(x.nodes.dom() =~= m.nodes.dom());
        assert(x.relationships.dom() =~= m.relationships.dom());
    }
    if mirrors(x, m) {
        assert(x.nodes =~= y.nodes);
        assert(x.relationships =~= y.relationships);
    }
}

/// A patch brings what it says of each Node, Relationship and definition, and leaves the others. It
/// takes away the content of the Nodes that are gone, and content that led to one of them now leads to
/// no Node; all other content stays.
pub proof fn law_patches_bring_what_they_say(x: IndexModel, p: PatchView)
    ensures
        ({
            let y = patched_index(x, p);
            &&& y.applied_revision == p.target_revision
            &&& forall|id: NodeId| #[trigger]
                y.nodes.dom().contains(id) <==> if p.nodes.dom().contains(id) {
                    p.nodes[id] is Some
                } else {
                    x.nodes.dom().contains(id)
                }
            &&& forall|id: NodeId| #[trigger]
                p.nodes.dom().contains(id) && p.nodes[id] is Some
                    ==> y.nodes[id].lifecycle_state == p.nodes[id]->0.lifecycle_state
                    && y.nodes[id].modified_revision == p.nodes[id]->0.modified_revision
                    && y.nodes[id].properties == p.nodes[id]->0.properties
            &&& forall|id: NodeId|
                !p.nodes.dom().contains(id) && x.nodes.dom().contains(id) ==> #[trigger] y.nodes[id]
                    == x.nodes[id]
            &&& forall|r: RelationshipView| #[trigger]
                y.relationships.dom().contains(r) <==> if p.relationships.dom().contains(r) {
                    p.relationships[r] is Some
                } else {
                    x.relationships.dom().contains(r)
                }
            &&& forall|k: Seq<char>| #[trigger]
                y.documents.dom().contains(k) <==> x.documents.dom().contains(k) && !(
                p.nodes.dom().contains(x.documents[k].node_id) && p.nodes[x.documents[k].node_id]
                    is None)
            &&& forall|k: Seq<char>| #[trigger]
                y.documents.dom().contains(k) ==> y.documents[k] == x.documents[k]
            &&& forall|k: DerivedKeyView| #[trigger]
                y.derived.dom().contains(k) <==> x.derived.dom().contains(k) && !(
                p.nodes.dom().contains(k.source) && p.nodes[k.source] is None)
            &&& forall|k: DerivedKeyView| #[trigger]
                y.derived.dom().contains(k) ==> {
                    let was = x.derived[k];
                    &&& y.derived[k].target_text == was.target_text
                    &&& y.derived[k].source_locator == was.source_locator
                    &&& y.derived[k].target == if was.target is Some && p.nodes.dom().contains(
                        was.target->0,
                    ) && p.nodes[was.target->0] is None {
                        None
                    } else {
                        was.target
                    }
                }
        }),
{
}

/// Whether a document can be taken: its key and its kind of source are not blank, its key is free,
/// and its Node is there.
pub open spec fn document_fits(x: IndexModel, d: SearchDocumentInput) -> bool {
    &&& !is_blank(d.document_key@)
    &&& !is_blank(d.source_kind@)
    &&& !x.documents.dom().contains(d.document_key@)
    &&& x.nodes.dom().contains(d.node_id)
}

/// Whether a Relationship found in content can be taken: what it names is not blank, its offsets are
/// in range and in order, its place is free, and its Nodes are there.
pub open spec fn link_fits(x: IndexModel, l: DerivedRelationshipInput) -> bool {
    &&& !is_blank(l.target_text@)
    &&& l.start_offset <= l.end_offset <= i64::MAX
    &&& !x.derived.dom().contains(derived_key(l))
    &&& x.nodes.dom().contains(l.source)
    &&& l.target is Some ==> x.nodes.dom().contains(l.target->0)
}

/// Content is taken piece by piece. A document that fits is then there under its key as it was given,
/// a Relationship that fits under its place; nothing else changes; and one piece that does not fit
/// makes all of it fail.
pub proof fn law_content_is_taken_piece_by_piece(
    x: IndexModel,
    documents: Seq<SearchDocumentInput>,
    links: Seq<DerivedRelationshipInput>,
    d: SearchDocumentInput,
    l: DerivedRelationshipInput,
)
    ensures
        add_content(x, Seq::empty(), Seq::empty()) == Ok::<IndexModel, ErrorView>(x),
        match add_content(x, documents, Seq::empty()) {
            Ok(y) => {
                let r = add_content(x, documents.push(d), Seq::empty());
                &&& r is Ok <==> document_fits(y, d)
                &&& r is Ok ==> {
                    let z = r->Ok_0;
                    &&& z.documents.dom() == y.documents.dom().insert(d.document_key@)
                    &&& z.documents[d.document_key@] == d@
                    &&& forall|k: Seq<char>|
                        y.documents.dom().contains(k) ==> #[trigger] z.documents[k]
                            == y.documents[k]
                    &&& z.derived == y.derived
                    &&& same_facts(y, z)
                }
            },
            Err(e) => add_content(x, documents.push(d), links) == Err::<IndexModel, ErrorView>(e),
        },
        match add_content(x, documents, links) {
            Ok(y) => {
                let r = add_content(x, documents, links.push(l));
                &&& r is Ok <==> link_fits(y, l)
                &&& r is Ok ==> {
                    let z = r->Ok_0;
                    &&& z.derived.dom() == y.derived.dom().insert(derived_key(l))
                    &&& z.derived[derived_key(l)].target == l.target
                    &&& z.derived[derived_key(l)].target_text == l.target_text@
                    &&& forall|k: DerivedKeyView|
                        y.derived.dom().contains(k) ==> #[trigger] z.derived[k] == y.derived[k]
                    &&& z.documents == y.documents
                    &&& same_facts(y, z)
                }
            },
            Err(e) => add_content(x, documents, links.push(l)) == Err::<IndexModel, ErrorView>(e),
        },
{
    lemma_documents_alike(x, documents, d, documents.len());
    assert(documents.push(d)[documents.len() as int] == d);
    assert(links.push(l)[links.len() as int] == l);
    reveal_with_fuel(add_documents, 2);
    reveal_with_fuel(add_links, 2);
    match add_documents(x, documents, documents.len()) {
        Ok(k) => {
            lemma_links_alike(k, links, l, links.len());
            let more = add_documents(x, documents.push(d), (documents.len() + 1) as nat);
            match add_content(x, documents.push(d), Seq::empty()) {
                Ok(z) => {
                    assert(z.documents.dom() =~= k.documents.dom().insert(d.document_key@));
                },
                Err(_) => {},
            }
            match add_links(k, links, links.len()) {
                Ok(y) => match add_content(x, documents, links.push(l)) {
                    Ok(z) => {
                        assert(z.derived.dom() =~= y.derived.dom().insert(derived_key(l)));
                    },
                    Err(_) => {},
                },
                Err(_) => {},
            }
        },
        Err(_) => {},
    }
}

/// Whether two Indexes hold the same facts.
pub open spec fn same_facts(a: IndexModel, b: IndexModel) -> bool {
    &&& a.applied_revision == b.applied_revision
    &&& a.nodes == b.nodes
    &&& a.relationships == b.relationships
    &&& a.property_definitions == b.property_definitions
    &&& a.relationship_definitions == b.relationship_definitions
}

proof fn lemma_documents_alike(
    x: IndexModel,
    documents: Seq<SearchDocumentInput>,
    d: SearchDocumentInput,
    n: nat,
)
    requires
        n <= documents.len(),
    ensures
        add_documents(x, documents.push(d), n) == add_documents(x, documents, n),
    decreases n,
{
    if n > 0 {
        lemma_documents_alike(x, documents, d, (n - 1) as nat);
        assert(documents.push(d)[n - 1] == documents[n - 1]);
    }
}

proof fn lemma_links_alike(
    x: IndexModel,
    links: Seq<DerivedRelationshipInput>,
    l: DerivedRelationshipInput,
    n: nat,
)
    requires
        n <= links.len(),
    ensures
        add_links(x, links.push(l), n) == add_links(x, links, n),
    decreases n,
{
    if n > 0 {
        lemma_links_alike(x, links, l, (n - 1) as nat);
        assert(links.push(l)[n - 1] == links[n - 1]);
    }
}

/// Replacing content begins without the content there was: without all of it, or without that of the
/// one Node whose content is replaced, while that of the others stays. What is given for one Node must
/// all be of that Node; else it is a conflict.
pub proof fn law_replacing_begins_without_the_old_content(
    x: IndexModel,
    id: NodeId,
    documents: Seq<SearchDocumentInput>,
    links: Seq<DerivedRelationshipInput>,
)
    ensures
        same_facts(x, without_content(x)),
        forall|k: Seq<char>| !without_content(x).documents.dom().contains(k),
        forall|k: DerivedKeyView| !without_content(x).derived.dom().contains(k),
        same_facts(x, without_content_of(x, id)),
        forall|k: Seq<char>| #[trigger]
            without_content_of(x, id).documents.dom().contains(k) <==> x.documents.dom().contains(k)
                && x.documents[k].node_id != id,
        forall|k: Seq<char>| #[trigger]
            without_content_of(x, id).documents.dom().contains(k) ==> without_content_of(
                x,
                id,
            ).documents[k] == x.documents[k],
        forall|k: DerivedKeyView| #[trigger]
            without_content_of(x, id).derived.dom().contains(k) <==> x.derived.dom().contains(k)
                && k.source != id,
        forall|k: DerivedKeyView| #[trigger]
            without_content_of(x, id).derived.dom().contains(k) ==> without_content_of(
                x,
                id,
            ).derived[k] == x.derived[k],
        (forall|i: int| 0 <= i < documents.len() ==> (#[trigger] documents[i]).node_id == id) && (
        forall|i: int| 0 <= i < links.len() ==> (#[trigger] links[i]).source == id)
            ==> replace_node_result(x, id, documents, links) == add_content(
            without_content_of(x, id),
            documents,
            links,
        ),
        !((forall|i: int| 0 <= i < documents.len() ==> (#[trigger] documents[i]).node_id == id) && (
        forall|i: int| 0 <= i < links.len() ==> (#[trigger] links[i]).source == id))
            ==> replace_node_result(x, id, documents, links) is Err && replace_node_result(
            x,
            id,
            documents,
            links,
        )->Err_0 is Conflict,
{
}

/// Whether a character is part of a search word: a letter, a digit, or an underscore.
pub open spec fn in_word(c: char) -> bool {
    c == '_' || char_is_alphanumeric(c)
}

/// A text without separators is one word; a separator parts what stands before it from what stands
/// behind it; and an empty text has no word.
pub proof fn law_words_are_parted_by_separators(a: Seq<char>, separator: char, b: Seq<char>)
    requires
        !in_word(separator),
    ensures
        words_of(Seq::empty()) == Seq::<Seq<char>>::empty(),
        words_of(a + seq![separator] + b) == words_of(a) + words_of(b),
        a.len() > 0 && (forall|i: int| 0 <= i < a.len() ==> in_word(#[trigger] a[i])) ==> words_of(a)
            == seq![a],
{
    lemma_words_behind(a, separator, b);
    if forall|i: int| 0 <= i < a.len() ==> in_word(#[trigger] a[i]) {
        lemma_one_word(a);
        assert(Seq::<Seq<char>>::empty().push(a) =~= seq![a]);
    }
}

proof fn lemma_one_word(a: Seq<char>)
    requires
        forall|i: int| 0 <= i < a.len() ==> in_word(#[trigger] a[i]),
    ensures
        words_so_far(a) == (Seq::<Seq<char>>::empty(), a),
    decreases a.len(),
{
    if a.len() > 0 {
        let rest = a.drop_last();
        assert forall|i: int| 0 <= i < rest.len() implies in_word(#[trigger] rest[i]) by {
            assert(rest[i] == a[i]);
        }
        lemma_one_word(rest);
        assert(in_word(a[a.len() - 1]));
        assert(rest.push(a.last()) =~= a);
    } else {
        assert(a =~= Seq::empty());
    }
}

proof fn lemma_words_behind(a: Seq<char>, separator: char, b: Seq<char>)
    requires
        !in_word(separator),
    ensures
        words_so_far(a + seq![separator] + b) == (words_of(a) + words_so_far(b).0, words_so_far(
            b,
        ).1),
        words_of(a + seq![separator] + b) == words_of(a) + words_of(b),
    decreases b.len(),
{
    let text = a + seq![separator] + b;
    if b.len() == 0 {
        assert(text.drop_last() =~= a);
        assert(text.last() == separator);
        assert(words_of(a) + Seq::<Seq<char>>::empty() =~= words_of(a));
    } else {
        lemma_words_behind(a, separator, b.drop_last());
        assert(text.drop_last() =~= a + seq![separator] + b.drop_last());
        assert(text.last() == b.last());
        let (words, open) = words_so_far(b.drop_last());
        if open.len() > 0 {
            assert(words_of(a) + words.push(open) =~= (words_of(a) + words).push(open));
        }
    }
    let (words, open) = words_so_far(b);
    if open.len() > 0 {
        assert(words_of(a) + words.push(open) =~= (words_of(a) + words).push(open));
    }
}

/// A search asks for its first twelve words, all of them, each as the beginning of a word and within
/// quotes; between one and a hundred hits are shown.
pub proof fn law_searches_ask_for_every_word(words: Seq<Seq<char>>, n: nat, limit: usize)
    requires
        n < words.len(),
    ensures
        word_count(words) <= 12,
        words.len() <= 12 ==> word_count(words) == words.len(),
        words.len() > 12 ==> word_count(words) == 12,
        match_text(words, 0) == Seq::<char>::empty(),
        match_text(words, n + 1) == (if n == 0 {
            Seq::empty()
        } else {
            match_text(words, n) + " AND "@
        }) + ("\""@ + words[n as int] + "\"*"@),
        1 <= hit_limit(limit) <= 100,
        1 <= limit <= 100 ==> hit_limit(limit) == limit,
{
    reveal_strlit("");
    if n == 0 {
        assert(match_text(words, 1) =~= "\""@ + words[0] + "\"*"@);
    } else {
        assert(match_text(words, n + 1) =~= match_text(words, n) + " AND "@ + ("\""@
            + words[n as int] + "\"*"@));
    }
}

/// Whether a hit shows what a row says, a blank title giving way to the text of the ID.
pub open spec fn shows_row(hit: HitView, row: SearchRow) -> bool {
    &&& id_read(row.node_id@) is Ok
    &&& hit.node_id == id_of(id_read(row.node_id@)->Ok_0)
    &&& hit.source_kind == row.source_kind@
    &&& hit.snippet == row.snippet@
    &&& hit.rank == row.rank
    &&& hit.title == if is_blank(row.title@) {
        hit.node_id.text()
    } else {
        row.title@
    }
}

/// Whether no row before a place is of this Node.
pub open spec fn none_before(rows: Seq<SearchRow>, place: int, id: NodeId) -> bool {
    forall|j: int| 0 <= j < place ==> id_of(id_read((#[trigger] rows[j]).node_id@)->Ok_0) != id
}

/// The hits come from the rows in their order, each showing the first row of its Node; and as long as
/// there is room, the Node of every row is among them.
pub proof fn law_hits_show_the_rows(rows: Seq<SearchRow>, n: nat, limit: nat)
    requires
        n <= rows.len(),
        limit > 0,
        hits_of(rows, n, limit) is Ok,
    ensures
        ({
            let hits = hits_of(rows, n, limit)->Ok_0;
            &&& forall|i: int|
                0 <= i < hits.len() ==> exists|k: int|
                    0 <= k < n && shows_row(#[trigger] hits[i], #[trigger] rows[k]) && none_before(
                        rows,
                        k,
                        hits[i].node_id,
                    )
            &&& hits.len() < limit ==> forall|k: int|
                0 <= k < n ==> id_read((#[trigger] rows[k]).node_id@) is Ok && is_hit(
                    hits,
                    id_of(id_read(rows[k].node_id@)->Ok_0),
                )
            &&& n > 0 && hits_of(rows, (n - 1) as nat, limit)->Ok_0.len() <= hits.len()
                ==> hits_of(rows, (n - 1) as nat, limit)->Ok_0.is_prefix_of(hits)
        }),
    decreases n,
{
    let hits = hits_of(rows, n, limit)->Ok_0;
    if n > 0 {
        let m = (n - 1) as nat;
        law_hits_show_the_rows(rows, m, limit);
        let before = hits_of(rows, m, limit)->Ok_0;
        assert(before.is_prefix_of(hits)) by {
            assert(hits.subrange(0, before.len() as int) =~= before);
        }
        assert forall|i: int| 0 <= i < hits.len() implies exists|k: int|
            0 <= k < n && shows_row(#[trigger] hits[i], #[trigger] rows[k]) && none_before(
                rows,
                k,
                hits[i].node_id,
            ) by {
            if i < before.len() {
                assert(before[i] == hits[i]);
                let k = choose|k: int|
                    0 <= k < m && shows_row(before[i], #[trigger] rows[k]) && none_before(
                        rows,
                        k,
                        before[i].node_id,
                    );
                assert(shows_row(hits[i], rows[k]));
            } else {
                assert(shows_row(hits[i], rows[n - 1]));
                assert(none_before(rows, n - 1, hits[i].node_id)) by {
                    assert forall|j: int| 0 <= j < n - 1 implies id_of(
                        id_read((#[trigger] rows[j]).node_id@)->Ok_0,
                    ) != hits[i].node_id by {
                        assert(is_hit(before, id_of(id_read(rows[j].node_id@)->Ok_0)));
                    }
                }
            }
        }
        if hits.len() < limit {
            assert forall|k: int| 0 <= k < n implies id_read((#[trigger] rows[k]).node_id@) is Ok
                && is_hit(hits, id_of(id_read(rows[k].node_id@)->Ok_0)) by {
                let id = id_of(id_read(rows[k].node_id@)->Ok_0);
                if k < m {
                    assert(is_hit(before, id));
                    let i = choose|i: int|
                        0 <= i < before.len() && (#[trigger] before[i]).node_id == id;
                    assert(hits[i].node_id == id);
                } else if is_hit(before, id) {
                    let i = choose|i: int|
                        0 <= i < before.len() && (#[trigger] before[i]).node_id == id;
                    assert(hits[i].node_id == id);
                } else {
                    assert(hits[before.len() as int].node_id == id);
                }
            }
        }
    }
}

/// Without an injected failure, following a store fails only where a row does not fit the tables: a
/// revision or a version that is none. An injected failure happens once, at its own point, and makes
/// the Index unavailable; at any other point it waits.
pub proof fn law_injected_failures_happen_once(
    x: IndexModel,
    m: RecordModel,
    failure: Option<FailurePoint>,
)
    ensures
        match delta_since(m, x.applied_revision) {
            DeltaView::Current(_) => reconcile_fault(x, m, failure) is None && left_by_reconcile(
                x,
                m,
                failure,
            ) == failure,
            DeltaView::Available(_) => {
                &&& failure == Some(FailurePoint::BeforeApply) ==> reconcile_fault(x, m, failure)
                    is Some && reconcile_fault(x, m, failure)->0 is IndexUnavailable
                    && left_by_reconcile(x, m, failure) is None
                &&& failure == Some(FailurePoint::BeforeCheckpoint) ==> reconcile_fault(
                    x,
                    m,
                    failure,
                ) is Some && left_by_reconcile(x, m, failure) is None
                &&& failure is None || failure == Some(FailurePoint::DuringRebuild) || failure
                    == Some(FailurePoint::BeforePromotion) ==> reconcile_fault(x, m, failure)
                    == reconcile_fault(x, m, None) && left_by_reconcile(x, m, failure) == failure
            },
            DeltaView::Unavailable { .. } => {
                &&& failure == Some(FailurePoint::DuringRebuild) ==> reconcile_fault(x, m, failure)
                    is Some && reconcile_fault(x, m, failure)->0 is IndexUnavailable
                    && left_by_reconcile(x, m, failure) is None
                &&& failure == Some(FailurePoint::BeforePromotion) ==> reconcile_fault(
                    x,
                    m,
                    failure,
                ) is Some
                &&& failure is None || failure == Some(FailurePoint::BeforeApply) || failure
                    == Some(FailurePoint::BeforeCheckpoint) ==> reconcile_fault(x, m, failure)
                    == reconcile_fault(x, m, None) && left_by_reconcile(x, m, failure) == failure
            },
        },
        reconcile_fault(x, m, None) is Some ==> reconcile_fault(x, m, None)->0 is Database,
{
}

/// How an Index was brought up to date is told as it was: nothing was to be done, the journal was
/// followed over the revisions between, or the Index was built anew because the journal did not reach
/// back.
pub proof fn law_outcomes_tell_what_was_done(x: IndexModel, m: RecordModel)
    ensures
        match reconcile_outcome(x, m) {
            ReconcileOutcome::Current { revision } => revision == m.revision && x.applied_revision
                == m.revision && reconciled(x, m) == x,
            ReconcileOutcome::Incremental { from_revision, to_revision, .. } => from_revision
                == x.applied_revision && to_revision == m.revision && from_revision < to_revision
                && reconciled(x, m).applied_revision == m.revision,
            ReconcileOutcome::Rebuilt { revision, reason } => revision == m.revision && reason
                == IndexRebuildReason::JournalUnavailable && mirrors(reconciled(x, m), m),
        },
{
    law_index_mirrors_the_store(x, m);
}

/// Whether an Index can be built anew follows from the revisions and versions of the store alone: all
/// of them are above zero and within 63 bits.
pub proof fn law_stores_fit_the_index(m: RecordModel)
    requires
        m.revision <= i64::MAX,
        forall|id: NodeId| #[trigger]
            m.nodes.dom().contains(id) ==> 0 < m.nodes[id].modified_revision <= i64::MAX && forall|
                k: Seq<char>,
            | #[trigger]
                m.nodes[id].properties.dom().contains(k) ==> 0
                    < m.nodes[id].properties[k].modified_revision <= i64::MAX,
        forall|r: RelationshipView| #[trigger]
            m.relationships.dom().contains(r) ==> 0 < m.relationships[r].modified_revision
                <= i64::MAX,
        forall|k: Seq<char>| #[trigger]
            m.property_definitions.dom().contains(k) ==> 0
                < m.property_definitions[k].definition.version <= i64::MAX && 0
                < m.property_definitions[k].modified_revision <= i64::MAX,
        forall|k: Seq<char>| #[trigger]
            m.relationship_definitions.dom().contains(k) ==> 0
                < m.relationship_definitions[k].definition.version <= i64::MAX && 0
                < m.relationship_definitions[k].modified_revision <= i64::MAX,
    ensures
        rebuild_fault(m, None) is None,
{
    assert forall|id: NodeId| #[trigger]
        all_there(rebuilt_index(m).nodes).dom().contains(id) implies indexed_node_ok(
        all_there(rebuilt_index(m).nodes)[id]->0,
    ) by {
        assert(m.nodes.dom().contains(id));
    }
    assert forall|r: RelationshipView| #[trigger]
        all_there(rebuilt_index(m).relationships).dom().contains(r) implies 0 < all_there(
        rebuilt_index(m).relationships,
    )[r]->0 <= i64::MAX by {
        assert(m.relationships.dom().contains(r));
    }
    assert forall|k: Seq<char>| #[trigger]
        all_there(m.property_definitions).dom().contains(k) implies indexed_definition_ok(
        all_there(m.property_definitions)[k]->0.definition.version,
        all_there(m.property_definitions)[k]->0.modified_revision,
    ) by {
        assert(m.property_definitions.dom().contains(k));
    }
    assert forall|k: Seq<char>| #[trigger]
        all_there(m.relationship_definitions).dom().contains(k) implies indexed_definition_ok(
        all_there(m.relationship_definitions)[k]->0.definition.version,
        all_there(m.relationship_definitions)[k]->0.modified_revision,
    ) by {
        assert(m.relationship_definitions.dom().contains(k));
    }
}

} // verus!
