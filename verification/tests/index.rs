//! The derived Index: search, content, backlinks, the graph, and orphans.
use genesis_core::index::model::IndexStore;
use genesis_core::index::query::{property_filter_parts, FilterOperator};
use genesis_core::index::search::{fts_query, plan_search, search_hits, SearchRow};
use genesis_core::record_store::model::RecordStore;
use genesis_core::{
    CoreError, DerivedRelationshipInput, IndexRebuildReason, JsonText, Mutation,
    NewRelationshipDefinition, NodeId, PropertyFilter, PropertyQuery, PropertySort, PropertyValue,
    PropertyValueKind, ReadPage, RealNumber, RelationshipProvenance, SearchDocumentInput,
};

fn text(value: &str) -> PropertyValue {
    PropertyValue::Text(value.to_owned())
}

fn float(value: f64) -> PropertyValue {
    PropertyValue::Real(RealNumber { bits: value.to_bits(), text: format!("{value:?}") })
}

fn document(key: &str, node_id: NodeId) -> SearchDocumentInput {
    SearchDocumentInput {
        document_key: key.to_owned(),
        node_id,
        source_kind: "note".to_owned(),
        title: "Title".to_owned(),
        body: "Body".to_owned(),
        metadata: String::new(),
        source_locator: None,
        source_fingerprint: "v1".to_owned(),
    }
}

fn derived(source: NodeId, target: Option<NodeId>, words: &str, at: usize) -> DerivedRelationshipInput {
    DerivedRelationshipInput {
        source,
        relationship_key: "mentions".to_owned(),
        target,
        target_text: words.to_owned(),
        source_kind: "note".to_owned(),
        source_locator: Some("note.md".to_owned()),
        parser: "links-v1".to_owned(),
        start_offset: at,
        end_offset: at + 4,
    }
}

fn indexed(records: &RecordStore) -> IndexStore {
    let mut index = IndexStore::new();
    index.rebuild(records, IndexRebuildReason::Requested).expect("rebuild");
    index
}

fn set(records: &mut RecordStore, node_id: NodeId, key: &str, value: PropertyValue) {
    records
        .apply_batch(&[Mutation::SetProperty { node_id, key: key.to_owned(), value }])
        .expect("Property");
}

fn link(records: &mut RecordStore, source: NodeId, key: &str, target: NodeId) {
    records
        .apply_batch(&[Mutation::AddRelationship { source, key: key.to_owned(), target }])
        .expect("Relationship");
}

#[test]
fn fts_input_is_tokenized_instead_of_interpreted_as_query_syntax() {
    assert_eq!(
        fts_query("Genesis OR title:*"),
        Some("\"Genesis\"* AND \"OR\"* AND \"title\"*".into())
    );
    assert_eq!(fts_query("***"), None);
}

#[test]
fn a_search_is_planned_within_bounds() {
    assert!(plan_search("  ", 10).is_none());
    let plan = plan_search("one two", 0).expect("a plan");
    assert_eq!((plan.limit, plan.rows), (1, 4));
    assert_eq!(plan.query, "\"one\"* AND \"two\"*");
    assert_eq!(plan_search("one", 10_000).expect("a plan").limit, 100);
}

#[test]
fn a_search_gives_each_node_once() {
    let first = NodeId::new();
    let second = NodeId::new();
    let row = |id: NodeId, rank: f64| SearchRow {
        node_id: id.to_string(),
        title: "Title".to_owned(),
        source_kind: "note".to_owned(),
        snippet: "…".to_owned(),
        rank: rank.to_bits(),
    };
    let rows = vec![row(first, -2.0), row(first, -1.5), row(second, -1.0)];
    let hits = search_hits(&rows, 10).expect("hits");
    assert_eq!(hits.iter().map(|hit| hit.node_id).collect::<Vec<_>>(), vec![first, second]);
    assert_eq!(f64::from_bits(hits[0].rank), -2.0);
    assert_eq!(search_hits(&rows, 1).expect("hits").len(), 1);
    let mut broken = vec![row(first, 0.0)];
    broken[0].node_id = "nobody".to_owned();
    assert!(search_hits(&broken, 10).is_err());
}

#[test]
fn backlinks_show_facts_and_content_with_their_provenance() {
    let mut records = RecordStore::new();
    let nodes = records.create_nodes(3).expect("Nodes");
    records
        .register_relationship_definition(&NewRelationshipDefinition {
            key: "links".to_owned(),
            forward_label: "Links to".to_owned(),
            inverse_label: Some("Linked from".to_owned()),
            description: None,
            origin: "test".to_owned(),
        })
        .expect("definition");
    link(&mut records, nodes[0].id, "links", nodes[2].id);
    let mut index = indexed(&records);
    index
        .replace_content_projection(
            &[document("d", nodes[1].id)],
            &[
                derived(nodes[1].id, Some(nodes[2].id), "three", 0),
                derived(nodes[1].id, None, "nowhere", 9),
            ],
        )
        .expect("content");
    let links = index.backlinks(nodes[2].id);
    assert_eq!(links.len(), 2);
    let fact = links
        .iter()
        .find(|link| link.provenance == RelationshipProvenance::CanonicalRecord)
        .expect("the fact");
    assert_eq!(fact.source, nodes[0].id);
    assert_eq!(fact.inverse_label.as_deref(), Some("Linked from"));
    let found = links
        .iter()
        .find(|link| link.provenance == RelationshipProvenance::ContentDerived)
        .expect("the content");
    assert_eq!(found.source, nodes[1].id);
    assert_eq!(found.parser.as_deref(), Some("links-v1"));
    assert_eq!((found.start_offset, found.end_offset), (Some(0), Some(4)));
    assert!(index.backlinks(nodes[0].id).is_empty());
    assert_eq!(
        index.backlinks_page(nodes[2].id, ReadPage::new(1, 5)).expect("page").len(),
        1
    );
}

#[test]
fn the_graph_holds_active_nodes_their_edges_and_no_orphans() {
    let mut records = RecordStore::new();
    let nodes = records.create_nodes(4).expect("Nodes");
    set(&mut records, nodes[0].id, "core.title", text("beta"));
    set(&mut records, nodes[1].id, "core.title", text("Alpha"));
    link(&mut records, nodes[0].id, "links", nodes[1].id);
    records
        .apply_batch(&[Mutation::TombstoneNode { node_id: nodes[3].id }])
        .expect("tombstone");
    let mut index = indexed(&records);
    let graph = index.graph();
    assert_eq!(graph.nodes.len(), 3);
    assert_eq!(graph.edges.len(), 1);
    assert_eq!(graph.edges[0].source, nodes[0].id);
    assert_eq!(graph.edges[0].target, Some(nodes[1].id));
    assert!(graph.nodes.iter().any(|node| node.node_id == nodes[2].id && node.is_orphan));
    assert!(graph.nodes.iter().any(|node| node.node_id == nodes[0].id && !node.is_orphan));
    let titled = |id: NodeId| {
        graph.nodes.iter().find(|node| node.node_id == id).expect("a Node").title.clone()
    };
    assert_eq!(titled(nodes[0].id), "beta");
    assert_eq!(titled(nodes[2].id), nodes[2].id.to_string().replace('-', ""));
    assert_eq!(index.orphan_node_ids(), vec![nodes[2].id]);
    assert_eq!(index.orphan_node_count(), 1);
    assert_eq!(index.orphan_node_ids_limited(5).expect("page"), vec![nodes[2].id]);
    index
        .replace_node_content_projection(
            nodes[2].id,
            &[document("d", nodes[2].id)],
            &[derived(nodes[2].id, Some(nodes[0].id), "beta", 0)],
        )
        .expect("content");
    assert!(index.orphan_node_ids().is_empty());
    assert_eq!(index.graph().edges.len(), 2);
    assert_eq!(index.graph_edges_page(ReadPage::new(0, 10)).expect("page").len(), 2);
}

#[test]
fn graph_nodes_are_paged_by_title_without_regard_to_case() {
    let mut records = RecordStore::new();
    let nodes = records.create_nodes(4).expect("Nodes");
    for (node, title) in nodes.iter().zip(["beta", "Alpha", "alpha", "ALPHABET"]) {
        set(&mut records, node.id, "core.title", text(title));
    }
    let index = indexed(&records);
    let mut same = vec![nodes[1].id, nodes[2].id];
    same.sort();
    let page = index.graph_nodes_page(ReadPage::new(0, 10)).expect("page");
    assert_eq!(
        page.iter().map(|node| node.node_id).collect::<Vec<_>>(),
        vec![same[0], same[1], nodes[3].id, nodes[0].id]
    );
    let second = index.graph_nodes_page(ReadPage::new(2, 1)).expect("page");
    assert_eq!(second.len(), 1);
    assert_eq!(second[0].title, "ALPHABET");
}

#[test]
fn a_page_gives_a_title_before_a_file_does() {
    let mut records = RecordStore::new();
    let node = records.create_node().expect("Node");
    let mut index = indexed(&records);
    let titled = |key: &str, kind: &str, title: &str| SearchDocumentInput {
        source_kind: kind.to_owned(),
        title: title.to_owned(),
        ..document(key, node.id)
    };
    index
        .replace_content_projection(
            &[titled("a", "note", "Note"), titled("b", "file", "File"), titled("c", "page", "Page")],
            &[],
        )
        .expect("content");
    assert_eq!(index.graph().nodes[0].title, "Page");
    index
        .replace_content_projection(&[titled("a", "note", "Note"), titled("b", "file", "File")], &[])
        .expect("content");
    assert_eq!(index.graph().nodes[0].title, "File");
}

#[test]
fn content_must_belong_to_nodes_that_are_there() {
    let mut records = RecordStore::new();
    let node = records.create_node().expect("Node");
    let mut index = indexed(&records);
    let nobody = NodeId::new();
    assert!(index.replace_content_projection(&[document("d", nobody)], &[]).is_err());
    assert!(index
        .replace_content_projection(&[], &[derived(node.id, Some(nobody), "x", 0)])
        .is_err());
    assert!(index.replace_content_projection(&[], &[derived(node.id, None, " ", 0)]).is_err());
    assert!(index
        .replace_content_projection(&[document("d", node.id), document("d", node.id)], &[])
        .is_err());
    index
        .replace_content_projection(&[], &[derived(node.id, None, "somewhere", 0)])
        .expect("an unresolved target");
    let edges = index.graph().edges;
    assert_eq!(edges.len(), 1);
    assert_eq!(edges[0].unresolved_target.as_deref(), Some("somewhere"));
}

#[test]
fn property_queries_compare_within_a_kind() {
    let mut records = RecordStore::new();
    let nodes = records.create_nodes(5).expect("Nodes");
    set(&mut records, nodes[0].id, "score", PropertyValue::Integer(3));
    set(&mut records, nodes[1].id, "score", float(2.5));
    set(&mut records, nodes[2].id, "score", text("ten"));
    set(&mut records, nodes[3].id, "score", float(-1.0));
    set(&mut records, nodes[4].id, "score", PropertyValue::Boolean(true));
    let index = indexed(&records);
    let ask = |filter: Option<PropertyFilter>, sort: PropertySort| {
        index
            .query_properties(&PropertyQuery {
                key: "score".to_owned(),
                filter,
                sort,
                limit: 100,
            })
            .expect("query")
            .into_iter()
            .map(|item| item.value)
            .collect::<Vec<_>>()
    };
    assert_eq!(ask(None, PropertySort::Ascending).len(), 5);
    assert_eq!(
        ask(Some(PropertyFilter::AtLeast(float(-5.0))), PropertySort::Ascending),
        vec![float(-1.0), float(2.5)]
    );
    assert_eq!(
        ask(Some(PropertyFilter::AtMost(PropertyValue::Integer(3))), PropertySort::Descending),
        vec![PropertyValue::Integer(3)]
    );
    assert_eq!(
        ask(Some(PropertyFilter::Equals(text("ten"))), PropertySort::Ascending),
        vec![text("ten")]
    );
    assert_eq!(
        ask(
            Some(PropertyFilter::AtLeast(PropertyValue::Boolean(false))),
            PropertySort::Ascending
        ),
        vec![PropertyValue::Boolean(true)]
    );
    for (value, kind) in [
        (PropertyValue::Null, "null"),
        (PropertyValue::List(vec![]), "list"),
        (
            PropertyValue::Structured(JsonText::parse("{}").expect("JSON")),
            "structured",
        ),
    ] {
        assert!(property_filter_parts(&PropertyFilter::Equals(value.clone())).is_ok());
        for filter in [PropertyFilter::AtLeast(value.clone()), PropertyFilter::AtMost(value)] {
            match property_filter_parts(&filter) {
                Err(CoreError::Conflict(words)) => assert_eq!(
                    words,
                    format!("{kind} Properties support equality filtering only")
                ),
                _ => panic!("{kind} values have no order"),
            }
        }
    }
    let parts = property_filter_parts(&PropertyFilter::AtLeast(PropertyValue::Integer(5)))
        .expect("parts");
    assert_eq!((parts.kind, parts.operator), (PropertyValueKind::Integer, FilterOperator::AtLeast));
    assert!(parts.value.is_some());
}

#[test]
fn a_purge_takes_content_with_it_and_leaves_the_rest() {
    let mut records = RecordStore::new();
    let nodes = records.create_nodes(2).expect("Nodes");
    let mut index = indexed(&records);
    index
        .replace_content_projection(
            &[document("a", nodes[0].id), document("b", nodes[1].id)],
            &[derived(nodes[1].id, Some(nodes[0].id), "first", 0)],
        )
        .expect("content");
    records
        .apply_batch(&[Mutation::TombstoneNode { node_id: nodes[0].id }])
        .expect("tombstone");
    records.apply_batch(&[Mutation::PurgeNode { node_id: nodes[0].id }]).expect("purge");
    index.reconcile(&records).expect("reconcile");
    assert!(index.backlinks(nodes[0].id).is_empty());
    let edges = index.graph().edges;
    assert_eq!(edges.len(), 1);
    assert_eq!(edges[0].target, None);
    assert_eq!(edges[0].unresolved_target.as_deref(), Some("first"));
    assert_eq!(index.list_nodes().len(), 1);
}

#[test]
fn the_content_of_one_node_is_replaced_alone() {
    let mut records = RecordStore::new();
    let nodes = records.create_nodes(3).expect("Nodes");
    let mut index = indexed(&records);
    index
        .replace_content_projection(
            &[document("a", nodes[0].id), document("b", nodes[1].id)],
            &[
                derived(nodes[0].id, Some(nodes[2].id), "third", 0),
                derived(nodes[1].id, Some(nodes[2].id), "third", 0),
            ],
        )
        .expect("content");
    index.replace_node_content_projection(nodes[0].id, &[], &[]).expect("no content");
    let links = index.backlinks(nodes[2].id);
    assert_eq!(links.len(), 1);
    assert_eq!(links[0].source, nodes[1].id);
    assert_eq!(index.applied_revision(), records.current_revision());
    assert_eq!(index.list_nodes().len(), 3);
    assert!(index
        .replace_node_content_projection(nodes[0].id, &[document("c", nodes[1].id)], &[])
        .is_err());
}
