//! Content projections: search documents, and Relationships found in content.
use vstd::prelude::*;
use crate::api::{clone_optional_text, optional_text, DerivedRelationshipInput, SearchDocumentInput};
use crate::error::{conflict, CoreError, ErrorView};
use crate::id::NodeId;
use crate::index::model::{
    DerivedKey, DerivedKeyView, DerivedRow, DerivedRowView, DocumentView, IndexModel, IndexStore,
};
use crate::table::{lemma_next_is_new, Table};
use crate::text::{blank, is_blank};

verus! {

/// The place of a Relationship found in content.
pub open spec fn derived_key(link: DerivedRelationshipInput) -> DerivedKeyView {
    DerivedKeyView {
        source: link.source,
        relationship_key: link.relationship_key@,
        start_offset: link.start_offset,
        end_offset: link.end_offset,
        source_kind: link.source_kind@,
        parser: link.parser@,
    }
}

/// What a Relationship found in content leads to.
pub open spec fn derived_row(link: DerivedRelationshipInput) -> DerivedRowView {
    DerivedRowView {
        target: link.target,
        target_text: link.target_text@,
        source_locator: optional_text(link.source_locator),
    }
}

/// Why the Index does not take a document: its key or its kind of source is blank, its key is
/// taken, or its Node is not there.
pub open spec fn document_fault(x: IndexModel, d: DocumentView) -> Option<ErrorView> {
    if is_blank(d.document_key) || is_blank(d.source_kind) {
        Some(ErrorView::Conflict("search documents require stable keys and source kinds"@))
    } else if x.documents.dom().contains(d.document_key) {
        Some(
            ErrorView::Database(
                "UNIQUE constraint failed: indexed_search_documents.document_key"@,
            ),
        )
    } else if !x.nodes.dom().contains(d.node_id) {
        Some(ErrorView::Database("FOREIGN KEY constraint failed"@))
    } else {
        None
    }
}

/// Why the Index does not take a Relationship found in content: it leads nowhere, an offset is
/// out of range, it ends before it starts, its place is taken, or a Node of it is not there.
pub open spec fn link_fault(x: IndexModel, link: DerivedRelationshipInput) -> Option<ErrorView> {
    if is_blank(link.target_text@) {
        Some(
            ErrorView::InvalidRelationship(
                "content-derived relationship requires a resolved or unresolved target"@,
            ),
        )
    } else if link.start_offset > i64::MAX || link.end_offset > i64::MAX {
        Some(ErrorView::InvalidRelationship("content link offset exceeds SQLite range"@))
    } else if link.end_offset < link.start_offset {
        Some(ErrorView::Database("CHECK constraint failed: end_offset >= start_offset"@))
    } else if x.derived.dom().contains(derived_key(link)) {
        Some(
            ErrorView::Database(
                "UNIQUE constraint failed: indexed_derived_relationships.source_uuid, indexed_derived_relationships.relationship_key, indexed_derived_relationships.source_kind, indexed_derived_relationships.parser, indexed_derived_relationships.start_offset, indexed_derived_relationships.end_offset"@,
            ),
        )
    } else if !x.nodes.dom().contains(link.source) || (link.target is Some && !x.nodes.dom().contains(
        link.target->0,
    )) {
        Some(ErrorView::Database("FOREIGN KEY constraint failed"@))
    } else {
        None
    }
}

/// The Index after the first `n` of these documents are added.
pub open spec fn add_documents(x: IndexModel, documents: Seq<SearchDocumentInput>, n: nat) -> Result<
    IndexModel,
    ErrorView,
>
    decreases n,
{
    if n == 0 || n > documents.len() {
        Ok(x)
    } else {
        match add_documents(x, documents, (n - 1) as nat) {
            Err(fault) => Err(fault),
            Ok(k) => match document_fault(k, documents[n - 1]@) {
                Some(fault) => Err(fault),
                None => Ok(
                    IndexModel {
                        documents: k.documents.insert(
                            documents[n - 1]@.document_key,
                            documents[n - 1]@,
                        ),
                        ..k
                    },
                ),
            },
        }
    }
}

/// The Index after the first `n` of these Relationships are added.
pub open spec fn add_links(x: IndexModel, links: Seq<DerivedRelationshipInput>, n: nat) -> Result<
    IndexModel,
    ErrorView,
>
    decreases n,
{
    if n == 0 || n > links.len() {
        Ok(x)
    } else {
        match add_links(x, links, (n - 1) as nat) {
            Err(fault) => Err(fault),
            Ok(k) => match link_fault(k, links[n - 1]) {
                Some(fault) => Err(fault),
                None => Ok(
                    IndexModel {
                        derived: k.derived.insert(
                            derived_key(links[n - 1]),
                            derived_row(links[n - 1]),
                        ),
                        ..k
                    },
                ),
            },
        }
    }
}

/// The Index after these documents and then these Relationships are added.
pub open spec fn add_content(
    x: IndexModel,
    documents: Seq<SearchDocumentInput>,
    links: Seq<DerivedRelationshipInput>,
) -> Result<IndexModel, ErrorView> {
    match add_documents(x, documents, documents.len()) {
        Err(fault) => Err(fault),
        Ok(k) => add_links(k, links, links.len()),
    }
}

/// The Index without content.
pub open spec fn without_content(x: IndexModel) -> IndexModel {
    IndexModel { documents: Map::empty(), derived: Map::empty(), ..x }
}

/// The Index without the content of a Node.
pub open spec fn without_content_of(x: IndexModel, id: NodeId) -> IndexModel {
    IndexModel {
        documents: x.documents.restrict(
            x.documents.dom().filter(|k: Seq<char>| x.documents[k].node_id != id),
        ),
        derived: x.derived.restrict(x.derived.dom().filter(|k: DerivedKeyView| k.source != id)),
        ..x
    }
}

/// Whether all of this content is that of one Node.
pub open spec fn content_of(
    id: NodeId,
    documents: Seq<SearchDocumentInput>,
    links: Seq<DerivedRelationshipInput>,
) -> bool {
    &&& forall|i: int| 0 <= i < documents.len() ==> (#[trigger] documents[i]).node_id == id
    &&& forall|i: int| 0 <= i < links.len() ==> (#[trigger] links[i]).source == id
}

/// What replacing the content of one Node makes of the Index.
pub open spec fn replace_node_result(
    x: IndexModel,
    id: NodeId,
    documents: Seq<SearchDocumentInput>,
    links: Seq<DerivedRelationshipInput>,
) -> Result<IndexModel, ErrorView> {
    if !content_of(id, documents, links) {
        Err(ErrorView::Conflict("incremental content projection contains another Node"@))
    } else {
        add_content(without_content_of(x, id), documents, links)
    }
}

proof fn lemma_add_documents_fails(
    x: IndexModel,
    documents: Seq<SearchDocumentInput>,
    n: nat,
    all: nat,
)
    requires
        n <= all <= documents.len(),
        add_documents(x, documents, n) is Err,
    ensures
        add_documents(x, documents, all) == add_documents(x, documents, n),
    decreases all,
{
    if n < all {
        lemma_add_documents_fails(x, documents, n, (all - 1) as nat);
    }
}

proof fn lemma_add_links_fails(
    x: IndexModel,
    links: Seq<DerivedRelationshipInput>,
    n: nat,
    all: nat,
)
    requires
        n <= all <= links.len(),
        add_links(x, links, n) is Err,
    ensures
        add_links(x, links, all) == add_links(x, links, n),
    decreases all,
{
    if n < all {
        lemma_add_links_fails(x, links, n, (all - 1) as nat);
    }
}

/// The place of a Relationship found in content.
fn key_of(link: &DerivedRelationshipInput) -> (r: DerivedKey)
    ensures
        r@ == derived_key(*link),
{
    DerivedKey {
        source: link.source,
        relationship_key: link.relationship_key.clone(),
        start_offset: link.start_offset,
        end_offset: link.end_offset,
        source_kind: link.source_kind.clone(),
        parser: link.parser.clone(),
    }
}

impl IndexStore {
    /// Refuses a document that the Index does not take beside these.
    fn insert_search_document(
        &self,
        documents: &mut Table<String, SearchDocumentInput>,
        document: &SearchDocumentInput,
        Ghost(x): Ghost<IndexModel>,
    ) -> (r: Result<(), CoreError>)
        requires
            self.wf(),
            old(documents).wf(),
            x.nodes == self@.nodes,
            x.documents == old(documents)@,
        ensures
            final(documents).wf(),
            match r {
                Ok(_) => document_fault(x, document@) is None && final(documents)@ == old(
                    documents,
                )@.insert(document@.document_key, document@),
                Err(e) => document_fault(x, document@) == Some(e@),
            },
    {
        if blank(document.document_key.as_str()) || blank(document.source_kind.as_str()) {
            return Err(conflict("search documents require stable keys and source kinds"));
        }
        if documents.contains(&document.document_key) {
            return Err(
                CoreError::Database(
                    "UNIQUE constraint failed: indexed_search_documents.document_key".to_owned(),
                ),
            );
        }
        if !self.nodes.contains(&document.node_id) {
            return Err(CoreError::Database("FOREIGN KEY constraint failed".to_owned()));
        }
        documents.insert(document.document_key.clone(), document.clone());
        Ok(())
    }

    /// Refuses a Relationship found in content that the Index does not take beside these.
    fn insert_derived_relationship(
        &self,
        derived: &mut Table<DerivedKey, DerivedRow>,
        link: &DerivedRelationshipInput,
        Ghost(x): Ghost<IndexModel>,
    ) -> (r: Result<(), CoreError>)
        requires
            self.wf(),
            old(derived).wf(),
            x.nodes == self@.nodes,
            x.derived == old(derived)@,
        ensures
            final(derived).wf(),
            match r {
                Ok(_) => link_fault(x, *link) is None && final(derived)@ == old(derived)@.insert(
                    derived_key(*link),
                    derived_row(*link),
                ),
                Err(e) => link_fault(x, *link) == Some(e@),
            },
    {
        if blank(link.target_text.as_str()) {
            return Err(
                CoreError::InvalidRelationship(
                    "content-derived relationship requires a resolved or unresolved target".to_owned(),
                ),
            );
        }
        if link.start_offset as u64 > i64::MAX as u64 || link.end_offset as u64 > i64::MAX as u64 {
            return Err(
                CoreError::InvalidRelationship(
                    "content link offset exceeds SQLite range".to_owned(),
                ),
            );
        }
        if link.end_offset < link.start_offset {
            return Err(
                CoreError::Database(
                    "CHECK constraint failed: end_offset >= start_offset".to_owned(),
                ),
            );
        }
        let key = key_of(link);
        if derived.contains(&key) {
            return Err(
                CoreError::Database(
                    "UNIQUE constraint failed: indexed_derived_relationships.source_uuid, indexed_derived_relationships.relationship_key, indexed_derived_relationships.source_kind, indexed_derived_relationships.parser, indexed_derived_relationships.start_offset, indexed_derived_relationships.end_offset".to_owned(),
                ),
            );
        }
        let lost = match &link.target {
            Some(target) => !self.nodes.contains(target),
            None => false,
        };
        if !self.nodes.contains(&link.source) || lost {
            return Err(CoreError::Database("FOREIGN KEY constraint failed".to_owned()));
        }
        derived.insert(
            key,
            DerivedRow {
                target: link.target,
                target_text: link.target_text.clone(),
                source_locator: clone_optional_text(&link.source_locator),
            },
        );
        Ok(())
    }

    /// Adds content to what is left of it: all of it, or, where some is refused, none.
    fn put_content(
        &mut self,
        documents_left: Table<String, SearchDocumentInput>,
        derived_left: Table<DerivedKey, DerivedRow>,
        documents: &[SearchDocumentInput],
        links: &[DerivedRelationshipInput],
    ) -> (r: Result<(), CoreError>)
        requires
            old(self).wf(),
            documents_left.wf(),
            derived_left.wf(),
        ensures
            final(self).wf(),
            final(self).failure() == old(self).failure(),
            ({
                let begun = IndexModel {
                    documents: documents_left@,
                    derived: derived_left@,
                    ..old(self)@
                };
                match r {
                    Ok(_) => add_content(begun, documents@, links@) == Ok::<IndexModel, ErrorView>(
                        final(self)@,
                    ),
                    Err(e) => add_content(begun, documents@, links@) == Err::<
                        IndexModel,
                        ErrorView,
                    >(e@) && *final(self) == *old(self),
                }
            }),
    {
        let ghost begun = IndexModel {
            documents: documents_left@,
            derived: derived_left@,
            ..self@
        };
        let mut kept_documents = documents_left;
        let mut kept_derived = derived_left;
        let ghost mut x = begun;
        let mut i: usize = 0;
        while i < documents.len()
            invariant
                *self == *old(self),
                self.wf(),
                begun == (IndexModel {
                    documents: documents_left@,
                    derived: derived_left@,
                    ..self@
                }),
                i <= documents@.len(),
                kept_documents.wf(),
                kept_derived.wf(),
                x == (IndexModel {
                    documents: kept_documents@,
                    derived: kept_derived@,
                    ..self@
                }),
                begun.derived == kept_derived@,
                add_documents(begun, documents@, i as nat) == Ok::<IndexModel, ErrorView>(x),
            decreases documents@.len() - i,
        {
            match self.insert_search_document(&mut kept_documents, &documents[i], Ghost(x)) {
                Err(e) => {
                    proof {
                        lemma_add_documents_fails(
                            begun,
                            documents@,
                            (i + 1) as nat,
                            documents@.len(),
                        );
                    }
                    return Err(e);
                },
                Ok(_) => {},
            }
            proof {
                x = IndexModel { documents: kept_documents@, ..x };
            }
            i = i + 1;
        }
        let ghost middle = x;
        let mut k: usize = 0;
        while k < links.len()
            invariant
                *self == *old(self),
                self.wf(),
                begun == (IndexModel {
                    documents: documents_left@,
                    derived: derived_left@,
                    ..self@
                }),
                k <= links@.len(),
                kept_documents.wf(),
                kept_derived.wf(),
                x == (IndexModel {
                    documents: kept_documents@,
                    derived: kept_derived@,
                    ..self@
                }),
                add_documents(begun, documents@, documents@.len()) == Ok::<IndexModel, ErrorView>(
                    middle,
                ),
                add_links(middle, links@, k as nat) == Ok::<IndexModel, ErrorView>(x),
            decreases links@.len() - k,
        {
            match self.insert_derived_relationship(&mut kept_derived, &links[k], Ghost(x)) {
                Err(e) => {
                    proof {
                        lemma_add_links_fails(middle, links@, (k + 1) as nat, links@.len());
                    }
                    return Err(e);
                },
                Ok(_) => {},
            }
            proof {
                x = IndexModel { derived: kept_derived@, ..x };
            }
            k = k + 1;
        }
        self.documents = kept_documents;
        self.derived = kept_derived;
        Ok(())
    }

    /// Replaces all content: by all of this, or, where some of it is refused, by nothing.
    pub fn replace_content_projection(
        &mut self,
        documents: &[SearchDocumentInput],
        relationships: &[DerivedRelationshipInput],
    ) -> (r: Result<(), CoreError>)
        requires
            old(self).wf(),
        ensures
            final(self).wf(),
            final(self).failure() == old(self).failure(),
            match r {
                Ok(_) => add_content(without_content(old(self)@), documents@, relationships@)
                    == Ok::<IndexModel, ErrorView>(final(self)@),
                Err(e) => add_content(without_content(old(self)@), documents@, relationships@)
                    == Err::<IndexModel, ErrorView>(e@) && *final(self) == *old(self),
            },
    {
        self.put_content(Table::new(), Table::new(), documents, relationships)
    }

    /// The documents of the other Nodes.
    fn documents_of_others(&self, id: NodeId) -> (r: Table<String, SearchDocumentInput>)
        requires
            self.wf(),
        ensures
            r.wf(),
            r@ == without_content_of(self@, id).documents,
    {
        let table = &self.documents;
        let ghost target = without_content_of(self@, id).documents;
        let mut r: Table<String, SearchDocumentInput> = Table::new();
        let mut i: usize = 0;
        while i < table.len()
            invariant
                self.wf(),
                table == &self.documents,
                r.wf(),
                target == without_content_of(self@, id).documents,
                i <= table.keys().len(),
                forall|k: Seq<char>| #[trigger]
                    r@.dom().contains(k) <==> table.keys().subrange(0, i as int).contains(k)
                        && target.dom().contains(k),
                forall|k: Seq<char>| #[trigger] r@.dom().contains(k) ==> r@[k] == target[k],
            decreases table.keys().len() - i,
        {
            proof {
                table.lemma_view();
                lemma_next_is_new::<String>(table.keys(), i as int);
            }
            let row = table.row_at(i);
            if !row.node_id.same(&id) {
                r.insert(table.key_at(i).clone(), row.clone());
            }
            i = i + 1;
        }
        proof {
            table.lemma_view();
            assert(table.keys().subrange(0, i as int) =~= table.keys());
            assert(r@ =~= target);
        }
        r
    }

    /// The derived Relationships of the other Nodes.
    fn derived_of_others(&self, id: NodeId) -> (r: Table<DerivedKey, DerivedRow>)
        requires
            self.wf(),
        ensures
            r.wf(),
            r@ == without_content_of(self@, id).derived,
    {
        let table = &self.derived;
        let ghost target = without_content_of(self@, id).derived;
        let mut r: Table<DerivedKey, DerivedRow> = Table::new();
        let mut i: usize = 0;
        while i < table.len()
            invariant
                self.wf(),
                table == &self.derived,
                r.wf(),
                target == without_content_of(self@, id).derived,
                i <= table.keys().len(),
                forall|k: DerivedKeyView| #[trigger]
                    r@.dom().contains(k) <==> table.keys().subrange(0, i as int).contains(k)
                        && target.dom().contains(k),
                forall|k: DerivedKeyView| #[trigger] r@.dom().contains(k) ==> r@[k] == target[k],
            decreases table.keys().len() - i,
        {
            proof {
                table.lemma_view();
                lemma_next_is_new::<DerivedKey>(table.keys(), i as int);
            }
            let key = table.key_at(i);
            if !key.source.same(&id) {
                r.insert(key.clone(), table.row_at(i).clone());
            }
            i = i + 1;
        }
        proof {
            table.lemma_view();
            assert(table.keys().subrange(0, i as int) =~= table.keys());
            assert(r@ =~= target);
        }
        r
    }

    /// Replaces the content of one Node: by all of this, or, where some of it is refused, by
    /// nothing.
    pub fn replace_node_content_projection(
        &mut self,
        node_id: NodeId,
        documents: &[SearchDocumentInput],
        relationships: &[DerivedRelationshipInput],
    ) -> (r: Result<(), CoreError>)
        requires
            old(self).wf(),
        ensures
            final(self).wf(),
            final(self).failure() == old(self).failure(),
            match r {
                Ok(_) => replace_node_result(old(self)@, node_id, documents@, relationships@)
                    == Ok::<IndexModel, ErrorView>(final(self)@),
                Err(e) => replace_node_result(old(self)@, node_id, documents@, relationships@)
                    == Err::<IndexModel, ErrorView>(e@) && *final(self) == *old(self),
            },
    {
        let mut i: usize = 0;
        while i < documents.len()
            invariant
                *self == *old(self),
                self.wf(),
                i <= documents@.len(),
                forall|j: int| 0 <= j < i ==> (#[trigger] documents@[j]).node_id == node_id,
            decreases documents@.len() - i,
        {
            if !documents[i].node_id.same(&node_id) {
                proof {
                    assert(documents@[i as int].node_id != node_id);
                }
                return Err(conflict("incremental content projection contains another Node"));
            }
            i = i + 1;
        }
        let mut k: usize = 0;
        while k < relationships.len()
            invariant
                *self == *old(self),
                self.wf(),
                k <= relationships@.len(),
                forall|j: int| 0 <= j < k ==> (#[trigger] relationships@[j]).source == node_id,
            decreases relationships@.len() - k,
        {
            if !relationships[k].source.same(&node_id) {
                proof {
                    assert(relationships@[k as int].source != node_id);
                }
                return Err(conflict("incremental content projection contains another Node"));
            }
            k = k + 1;
        }
        let documents_left = self.documents_of_others(node_id);
        let derived_left = self.derived_of_others(node_id);
        self.put_content(documents_left, derived_left, documents, relationships)
    }
}

proof fn lemma_add_documents_ok(
    x: IndexModel,
    documents: Seq<SearchDocumentInput>,
    n: nat,
    y: IndexModel,
)
    requires
        x.content_ok(),
        n <= documents.len(),
        add_documents(x, documents, n) == Ok::<IndexModel, ErrorView>(y),
    ensures
        y.content_ok(),
        y.nodes == x.nodes,
        y.relationships == x.relationships,
        y.property_definitions == x.property_definitions,
        y.relationship_definitions == x.relationship_definitions,
        y.applied_revision == x.applied_revision,
    decreases n,
{
    if n > 0 {
        let k = add_documents(x, documents, (n - 1) as nat)->Ok_0;
        lemma_add_documents_ok(x, documents, (n - 1) as nat, k);
        assert forall|key: Seq<char>| #[trigger]
            y.documents.dom().contains(key) implies y.nodes.dom().contains(y.documents[key].node_id)
            && y.documents[key].document_key == key by {
            if key != documents[n - 1]@.document_key {
                assert(k.documents.dom().contains(key));
            }
        }
        assert forall|key: DerivedKeyView| #[trigger]
            y.derived.dom().contains(key) implies y.nodes.dom().contains(key.source) && match y.derived[key].target {
            Some(target) => y.nodes.dom().contains(target),
            None => true,
        } by {
            assert(k.derived.dom().contains(key));
        }
    }
}

proof fn lemma_add_links_ok(
    x: IndexModel,
    links: Seq<DerivedRelationshipInput>,
    n: nat,
    y: IndexModel,
)
    requires
        x.content_ok(),
        n <= links.len(),
        add_links(x, links, n) == Ok::<IndexModel, ErrorView>(y),
    ensures
        y.content_ok(),
        y.nodes == x.nodes,
        y.relationships == x.relationships,
        y.property_definitions == x.property_definitions,
        y.relationship_definitions == x.relationship_definitions,
        y.applied_revision == x.applied_revision,
    decreases n,
{
    if n > 0 {
        let k = add_links(x, links, (n - 1) as nat)->Ok_0;
        lemma_add_links_ok(x, links, (n - 1) as nat, k);
        assert forall|key: Seq<char>| #[trigger]
            y.documents.dom().contains(key) implies y.nodes.dom().contains(y.documents[key].node_id)
            && y.documents[key].document_key == key by {
            assert(k.documents.dom().contains(key));
        }
        assert forall|key: DerivedKeyView| #[trigger]
            y.derived.dom().contains(key) implies y.nodes.dom().contains(key.source) && match y.derived[key].target {
            Some(target) => y.nodes.dom().contains(target),
            None => true,
        } by {
            if key != derived_key(links[n - 1]) {
                assert(k.derived.dom().contains(key));
            }
        }
    }
}

/// Content never changes what the Index shows of the Record Store, and always belongs to Nodes
/// that are there.
pub proof fn law_content_leaves_facts(
    x: IndexModel,
    documents: Seq<SearchDocumentInput>,
    links: Seq<DerivedRelationshipInput>,
    y: IndexModel,
)
    requires
        x.content_ok(),
        add_content(x, documents, links) == Ok::<IndexModel, ErrorView>(y),
    ensures
        y.content_ok(),
        y.nodes == x.nodes,
        y.relationships == x.relationships,
        y.property_definitions == x.property_definitions,
        y.relationship_definitions == x.relationship_definitions,
        y.applied_revision == x.applied_revision,
{
    let k = add_documents(x, documents, documents.len())->Ok_0;
    lemma_add_documents_ok(x, documents, documents.len(), k);
    lemma_add_links_ok(k, links, links.len(), y);
}

/// Taking content away, all of it or that of one Node, leaves only content of Nodes that are
/// there.
pub proof fn law_removing_content_keeps_the_rest_ok(x: IndexModel, id: NodeId)
    requires
        x.content_ok(),
    ensures
        without_content(x).content_ok(),
        without_content_of(x, id).content_ok(),
{
    let y = without_content_of(x, id);
    assert forall|key: Seq<char>| #[trigger] y.documents.dom().contains(key) implies y.nodes.dom().contains(
        y.documents[key].node_id,
    ) && y.documents[key].document_key == key by {
        assert(x.documents.dom().contains(key));
    }
    assert forall|key: DerivedKeyView| #[trigger]
        y.derived.dom().contains(key) implies y.nodes.dom().contains(key.source) && match y.derived[key].target {
        Some(target) => y.nodes.dom().contains(target),
        None => true,
    } by {
        assert(x.derived.dom().contains(key));
    }
}

} // verus!
