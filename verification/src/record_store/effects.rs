//! What each change makes of a store, told of the facts before and after it.
use vstd::prelude::*;
use vstd::utf8::encode_utf8;
use crate::api::{DefinitionState, Mutation, RelationshipView};
use crate::error::{CoreError, ErrorView};
use crate::id::NodeId;
use crate::node::{LifecycleState, Node};
use crate::record_store::keys::{key_fault, KeyUse};
use crate::record_store::model::{ChangeKind, NodeRowView, RecordModel};
use crate::record_store::operations::{
    batch_result, create_all_result, create_result, insert_all, mutate, mutate_all, node_answers,
    property_answers, reserve_all, resolution,
};
use crate::text::{char_is_control, char_is_whitespace};
use crate::value::{value_fault, PropertyValue, PropertyValueKind, RealView, ValueView};

verus! {

/// Whether a Node is there in this state.
pub open spec fn is_in_state(m: RecordModel, id: NodeId, state: LifecycleState) -> bool {
    m.nodes.dom().contains(id) && m.nodes[id].lifecycle_state == state
}

/// Whether two contents agree in all but their Nodes, their Relationships and their journals.
pub open spec fn same_but_facts(a: RecordModel, b: RecordModel) -> bool {
    &&& a.revision == b.revision
    &&& a.property_definitions == b.property_definitions
    &&& a.relationship_definitions == b.relationship_definitions
}

/// Whether the journal has grown by one entry of this kind, at the current revision.
pub open spec fn journal_grew(
    a: RecordModel,
    b: RecordModel,
    ordinal: u64,
    kind: ChangeKind,
    id: Option<NodeId>,
    key: Option<Seq<char>>,
    target: Option<NodeId>,
) -> bool {
    let last = b.journal.last();
    &&& b.journal.len() == a.journal.len() + 1
    &&& b.journal.drop_last() == a.journal
    &&& last.revision == a.revision
    &&& last.ordinal == ordinal
    &&& last.kind == kind
    &&& last.node_id == id
    &&& last.definition_key == key
    &&& last.target == target
    &&& last.replacement_key is None
}

/// The kind that a value is of, told by the value itself.
pub open spec fn is_of_kind(value: PropertyValue, kind: PropertyValueKind) -> bool {
    match kind {
        PropertyValueKind::Null => value is Null,
        PropertyValueKind::Boolean => value is Boolean,
        PropertyValueKind::Integer => value is Integer,
        PropertyValueKind::Real => value is Real,
        PropertyValueKind::Text => value is Text,
        PropertyValueKind::Date => value is Date,
        PropertyValueKind::DateTime => value is DateTime,
        PropertyValueKind::List => value is List,
        PropertyValueKind::Structured => value is Structured,
    }
}

/// A key is accepted exactly where it has at least one character and at most 255 bytes, neither
/// begins nor ends with white space, and holds no control character. What a key is used for decides
/// only which failure a refused one gives.
pub proof fn law_keys_are_checked(key: Seq<char>, used: KeyUse, other: KeyUse)
    ensures
        key_fault(key, used) is None <==> key.len() > 0 && encode_utf8(key).len() <= 255
            && !char_is_whitespace(key[0]) && !char_is_whitespace(key[key.len() - 1]) && !exists|
            i: int,
        |
            0 <= i < key.len() && char_is_control(#[trigger] key[i]),
        key_fault(key, used) is None <==> key_fault(key, other) is None,
        key_fault(key, used) is Some ==> if used is Relationship {
            key_fault(key, used)->0 is InvalidRelationship
        } else {
            key_fault(key, used)->0 is InvalidProperty
        },
{
    if key.len() > 0 {
        assert(key[key.len() - 1] == key.last());
    }
}

/// Setting a Property succeeds exactly where its key and its value are valid, its Node is active,
/// and the definition of its key, if there is one, is active and expects that kind of value or none.
/// The Property then has the value that was given, and nothing else is changed but the revision at
/// which the Node was changed. The one value that is not kept as given is the real minus zero, which
/// becomes zero.
pub proof fn law_property_is_set(
    m: RecordModel,
    ordinal: u64,
    id: NodeId,
    key: String,
    value: PropertyValue,
)
    ensures
        ({
            let r = mutate(m, ordinal, Mutation::SetProperty { node_id: id, key, value });
            let defined = m.property_definitions.dom().contains(key@);
            let definition = m.property_definitions[key@].definition;
            let active = is_in_state(m, id, LifecycleState::Active);
            let valid = key_fault(key@, KeyUse::Property) is None && value_fault(value@) is None;
            let expected = match definition.expected_value_kind {
                Some(kind) => is_of_kind(value, kind),
                None => true,
            };
            &&& r is Ok <==> valid && active && (defined ==> definition.state is Active && expected)
            &&& valid && active && defined && definition.state is Active && !expected
                ==> r->Err_0 is InvalidPropertyValue
            &&& valid && active && defined && definition.state is Deprecated ==> r->Err_0
                is Conflict
            &&& valid && !m.nodes.dom().contains(id) ==> r->Err_0 is NotFound
            &&& valid && is_in_state(m, id, LifecycleState::Tombstoned) ==> r->Err_0 is Conflict
            &&& match r {
                Ok(n) => {
                    let before = m.nodes[id];
                    let after = n.nodes[id];
                    &&& n.nodes.dom() == m.nodes.dom()
                    &&& forall|other: NodeId|
                        other != id && m.nodes.dom().contains(other) ==> #[trigger] n.nodes[other]
                            == m.nodes[other]
                    &&& after.lifecycle_state == before.lifecycle_state
                    &&& after.created_revision == before.created_revision
                    &&& after.modified_revision == m.revision
                    &&& after.properties.dom() == before.properties.dom().insert(key@)
                    &&& forall|k: Seq<char>|
                        k != key@ && before.properties.dom().contains(k)
                            ==> #[trigger] after.properties[k] == before.properties[k]
                    &&& after.properties[key@].modified_revision == m.revision
                    &&& match value {
                        PropertyValue::Real(x) => if x.bits == 0x8000_0000_0000_0000 {
                            after.properties[key@].value == ValueView::Real(
                                RealView { bits: 0, text: "0.0"@ },
                            )
                        } else {
                            after.properties[key@].value == ValueView::Real(
                                RealView { bits: x.bits, text: x.text@ },
                            )
                        },
                        _ => after.properties[key@].value == value@,
                    }
                    &&& n.issued == m.issued
                    &&& n.relationships == m.relationships
                    &&& same_but_facts(m, n)
                    &&& journal_grew(
                        m,
                        n,
                        ordinal,
                        ChangeKind::PropertySet,
                        Some(id),
                        Some(key@),
                        None,
                    )
                },
                Err(_) => true,
            }
        }),
{
    reveal(mutate);
    let r = mutate(m, ordinal, Mutation::SetProperty { node_id: id, key, value });
    match r {
        Ok(n) => {
            assert(n.nodes.dom() =~= m.nodes.dom());
            assert(n.journal.drop_last() =~= m.journal);
            assert(n.nodes[id].properties.dom() =~= m.nodes[id].properties.dom().insert(key@));
        },
        Err(_) => {},
    }
}

/// A Property that was just set is read back as the value that was given, and stays so until the
/// same Property of the same Node is set or removed, or the Node is purged.
pub proof fn law_property_stays_until_it_is_changed(
    m: RecordModel,
    ordinal: u64,
    mutation: Mutation,
    n: RecordModel,
    id: NodeId,
    key: Seq<char>,
)
    requires
        mutate(m, ordinal, mutation) == Ok::<RecordModel, ErrorView>(n),
        m.nodes.dom().contains(id),
        m.nodes[id].properties.dom().contains(key),
        forall|other: NodeId| #[trigger] m.nodes.dom().contains(other) ==> m.issued.contains(other),
        match mutation {
            Mutation::SetProperty { node_id, key: k, value } => node_id != id || k@ != key,
            Mutation::RemoveProperty { node_id, key: k } => node_id != id || k@ != key,
            Mutation::PurgeNode { node_id } => node_id != id,
            _ => true,
        },
    ensures
        n.nodes.dom().contains(id),
        n.nodes[id].properties.dom().contains(key),
        n.nodes[id].properties[key] == m.nodes[id].properties[key],
{
    reveal(mutate);
}

/// Removing a Property succeeds exactly where its key is valid, its Node is active and has the
/// Property. It is gone then, and nothing else is changed but the revision at which the Node was
/// changed.
pub proof fn law_property_is_removed(m: RecordModel, ordinal: u64, id: NodeId, key: String)
    ensures
        ({
            let r = mutate(m, ordinal, Mutation::RemoveProperty { node_id: id, key });
            let valid = key_fault(key@, KeyUse::Property) is None;
            let active = is_in_state(m, id, LifecycleState::Active);
            &&& r is Ok <==> valid && active && m.nodes[id].properties.dom().contains(key@)
            &&& valid && active && !m.nodes[id].properties.dom().contains(key@) ==> r->Err_0
                is NotFound
            &&& valid && !m.nodes.dom().contains(id) ==> r->Err_0 is NotFound
            &&& valid && is_in_state(m, id, LifecycleState::Tombstoned) ==> r->Err_0 is Conflict
            &&& match r {
                Ok(n) => {
                    let before = m.nodes[id];
                    let after = n.nodes[id];
                    &&& n.nodes.dom() == m.nodes.dom()
                    &&& forall|other: NodeId|
                        other != id && m.nodes.dom().contains(other) ==> #[trigger] n.nodes[other]
                            == m.nodes[other]
                    &&& after.lifecycle_state == before.lifecycle_state
                    &&& after.created_revision == before.created_revision
                    &&& after.modified_revision == m.revision
                    &&& !after.properties.dom().contains(key@)
                    &&& forall|k: Seq<char>|
                        k != key@ && before.properties.dom().contains(k)
                            ==> #[trigger] after.properties.dom().contains(k)
                            && after.properties[k] == before.properties[k]
                    &&& after.properties.dom().subset_of(before.properties.dom())
                    &&& n.issued == m.issued
                    &&& n.relationships == m.relationships
                    &&& same_but_facts(m, n)
                    &&& journal_grew(
                        m,
                        n,
                        ordinal,
                        ChangeKind::PropertyRemoved,
                        Some(id),
                        Some(key@),
                        None,
                    )
                },
                Err(_) => true,
            }
        }),
{
    reveal(mutate);
    match mutate(m, ordinal, Mutation::RemoveProperty { node_id: id, key }) {
        Ok(n) => {
            assert(n.nodes.dom() =~= m.nodes.dom());
            assert(n.journal.drop_last() =~= m.journal);
        },
        Err(_) => {},
    }
}

/// Whether the Nodes are the same but for the revision at which the two ends of a Relationship were
/// changed, which is the current one.
pub open spec fn ends_were_touched(a: RecordModel, b: RecordModel, r: RelationshipView) -> bool {
    &&& b.nodes.dom() == a.nodes.dom()
    &&& forall|id: NodeId| #[trigger]
        a.nodes.dom().contains(id) ==> {
            &&& b.nodes[id].lifecycle_state == a.nodes[id].lifecycle_state
            &&& b.nodes[id].created_revision == a.nodes[id].created_revision
            &&& b.nodes[id].properties == a.nodes[id].properties
            &&& b.nodes[id].modified_revision == if id == r.source || id == r.target {
                a.revision
            } else {
                a.nodes[id].modified_revision
            }
        }
}

/// Adding a Relationship succeeds exactly where its key is valid and not deprecated, both of its
/// ends are active, and it is not there yet. It is there then, dated by the current revision, and
/// every other Relationship is as it was.
pub proof fn law_relationship_is_added(
    m: RecordModel,
    ordinal: u64,
    source: NodeId,
    key: String,
    target: NodeId,
)
    ensures
        ({
            let r = mutate(m, ordinal, Mutation::AddRelationship { source, key, target });
            let link = RelationshipView { source, key: key@, target };
            let valid = key_fault(key@, KeyUse::Relationship) is None;
            let active = is_in_state(m, source, LifecycleState::Active) && is_in_state(
                m,
                target,
                LifecycleState::Active,
            );
            let open = m.relationship_definitions.dom().contains(key@)
                ==> m.relationship_definitions[key@].definition.state is Active;
            &&& r is Ok <==> valid && active && open && !m.relationships.dom().contains(link)
            &&& valid && active && open && m.relationships.dom().contains(link) ==> r->Err_0
                is AlreadyExists
            &&& valid && active && !open ==> r->Err_0 is Conflict
            &&& valid && !m.nodes.dom().contains(source) ==> r->Err_0 is NotFound
            &&& valid && is_in_state(m, source, LifecycleState::Active) && !m.nodes.dom().contains(
                target,
            ) ==> r->Err_0 is NotFound
            &&& match r {
                Ok(n) => {
                    &&& n.relationships.dom() == m.relationships.dom().insert(link)
                    &&& n.relationships[link].created_revision == m.revision
                    &&& n.relationships[link].modified_revision == m.revision
                    &&& forall|other: RelationshipView|
                        m.relationships.dom().contains(other) ==> #[trigger] n.relationships[other]
                            == m.relationships[other]
                    &&& ends_were_touched(m, n, link)
                    &&& n.issued == m.issued
                    &&& same_but_facts(m, n)
                    &&& journal_grew(
                        m,
                        n,
                        ordinal,
                        ChangeKind::RelationshipAdded,
                        Some(source),
                        Some(key@),
                        Some(target),
                    )
                },
                Err(_) => true,
            }
        }),
{
    reveal(mutate);
    match mutate(m, ordinal, Mutation::AddRelationship { source, key, target }) {
        Ok(n) => {
            assert(n.nodes.dom() =~= m.nodes.dom());
            assert(n.journal.drop_last() =~= m.journal);
            assert(n.relationships.dom() =~= m.relationships.dom().insert(
                RelationshipView { source, key: key@, target },
            ));
        },
        Err(_) => {},
    }
}

/// Removing a Relationship succeeds exactly where its key is valid, the IDs of both ends were
/// issued, whatever became of their Nodes, and it is there. It is gone then, and every other
/// Relationship is as it was.
pub proof fn law_relationship_is_removed(
    m: RecordModel,
    ordinal: u64,
    source: NodeId,
    key: String,
    target: NodeId,
)
    ensures
        ({
            let r = mutate(m, ordinal, Mutation::RemoveRelationship { source, key, target });
            let link = RelationshipView { source, key: key@, target };
            let valid = key_fault(key@, KeyUse::Relationship) is None;
            let issued = m.issued.contains(source) && m.issued.contains(target);
            &&& r is Ok <==> valid && issued && m.relationships.dom().contains(link)
            &&& valid && !(issued && m.relationships.dom().contains(link)) ==> r->Err_0 is NotFound
            &&& match r {
                Ok(n) => {
                    &&& n.relationships.dom() == m.relationships.dom().remove(link)
                    &&& forall|other: RelationshipView|
                        other != link && m.relationships.dom().contains(other)
                            ==> #[trigger] n.relationships[other] == m.relationships[other]
                    &&& ends_were_touched(m, n, link)
                    &&& n.issued == m.issued
                    &&& same_but_facts(m, n)
                    &&& journal_grew(
                        m,
                        n,
                        ordinal,
                        ChangeKind::RelationshipRemoved,
                        Some(source),
                        Some(key@),
                        Some(target),
                    )
                },
                Err(_) => true,
            }
        }),
{
    reveal(mutate);
    match mutate(m, ordinal, Mutation::RemoveRelationship { source, key, target }) {
        Ok(n) => {
            assert(n.nodes.dom() =~= m.nodes.dom());
            assert(n.journal.drop_last() =~= m.journal);
            assert(n.relationships.dom() =~= m.relationships.dom().remove(
                RelationshipView { source, key: key@, target },
            ));
        },
        Err(_) => {},
    }
}

/// Whether a Node, and nothing else, has gone from one state to another, at the current revision.
pub open spec fn state_moved(
    a: RecordModel,
    b: RecordModel,
    id: NodeId,
    to: LifecycleState,
) -> bool {
    &&& b.nodes.dom() == a.nodes.dom()
    &&& forall|other: NodeId|
        other != id && a.nodes.dom().contains(other) ==> #[trigger] b.nodes[other]
            == a.nodes[other]
    &&& b.nodes[id].lifecycle_state == to
    &&& b.nodes[id].created_revision == a.nodes[id].created_revision
    &&& b.nodes[id].modified_revision == a.revision
    &&& b.nodes[id].properties == a.nodes[id].properties
    &&& b.issued == a.issued
    &&& b.relationships == a.relationships
    &&& same_but_facts(a, b)
}

/// An active Node can be tombstoned, a tombstoned one restored or purged, and nothing else: any
/// other state is a conflict, and a Node that is not there is not found. Tombstoning and restoring
/// change the state alone. Purging removes the Node; its ID and the Relationships stay.
pub proof fn law_lifecycle_steps(m: RecordModel, ordinal: u64, id: NodeId)
    ensures
        ({
            let t = mutate(m, ordinal, Mutation::TombstoneNode { node_id: id });
            let r = mutate(m, ordinal, Mutation::RestoreNode { node_id: id });
            let p = mutate(m, ordinal, Mutation::PurgeNode { node_id: id });
            let there = m.nodes.dom().contains(id);
            let active = is_in_state(m, id, LifecycleState::Active);
            let tombstoned = is_in_state(m, id, LifecycleState::Tombstoned);
            &&& t is Ok <==> active
            &&& r is Ok <==> tombstoned
            &&& p is Ok <==> tombstoned
            &&& !there ==> t->Err_0 is NotFound && r->Err_0 is NotFound && p->Err_0 is NotFound
            &&& tombstoned ==> t->Err_0 is Conflict
            &&& active ==> r->Err_0 is Conflict && p->Err_0 is Conflict
            &&& t is Ok ==> state_moved(m, t->Ok_0, id, LifecycleState::Tombstoned)
                && journal_grew(
                m,
                t->Ok_0,
                ordinal,
                ChangeKind::NodeTombstoned,
                Some(id),
                None,
                None,
            )
            &&& r is Ok ==> state_moved(m, r->Ok_0, id, LifecycleState::Active) && journal_grew(
                m,
                r->Ok_0,
                ordinal,
                ChangeKind::NodeRestored,
                Some(id),
                None,
                None,
            )
            &&& p is Ok ==> {
                let n = p->Ok_0;
                &&& !n.nodes.dom().contains(id)
                &&& forall|other: NodeId|
                    other != id && m.nodes.dom().contains(other)
                        ==> #[trigger] n.nodes.dom().contains(other) && n.nodes[other]
                        == m.nodes[other]
                &&& n.nodes.dom().subset_of(m.nodes.dom())
                &&& n.issued == m.issued
                &&& n.relationships == m.relationships
                &&& same_but_facts(m, n)
                &&& journal_grew(m, n, ordinal, ChangeKind::NodePurged, Some(id), None, None)
            }
        }),
{
    reveal(mutate);
    let t = mutate(m, ordinal, Mutation::TombstoneNode { node_id: id });
    let r = mutate(m, ordinal, Mutation::RestoreNode { node_id: id });
    let p = mutate(m, ordinal, Mutation::PurgeNode { node_id: id });
    if t is Ok {
        assert(t->Ok_0.nodes.dom() =~= m.nodes.dom());
        assert(t->Ok_0.journal.drop_last() =~= m.journal);
    }
    if r is Ok {
        assert(r->Ok_0.nodes.dom() =~= m.nodes.dom());
        assert(r->Ok_0.journal.drop_last() =~= m.journal);
    }
    if p is Ok {
        assert(p->Ok_0.journal.drop_last() =~= m.journal);
    }
}

/// Whether a Node is active, without Properties, and dated by this revision alone.
pub open spec fn is_blank_node(row: NodeRowView, revision: u64) -> bool {
    &&& row.lifecycle_state is Active
    &&& row.created_revision == revision
    &&& row.modified_revision == revision
    &&& forall|k: Seq<char>| !row.properties.dom().contains(k)
}

/// Whether a blank Node, and nothing else, has come with its ID.
pub open spec fn node_came(a: RecordModel, b: RecordModel, id: NodeId, revision: u64) -> bool {
    &&& b.nodes.dom() == a.nodes.dom().insert(id)
    &&& is_blank_node(b.nodes[id], revision)
    &&& forall|other: NodeId|
        other != id && a.nodes.dom().contains(other) ==> #[trigger] b.nodes[other]
            == a.nodes[other]
    &&& b.issued == a.issued.insert(id)
    &&& b.relationships == a.relationships
    &&& b.property_definitions == a.property_definitions
    &&& b.relationship_definitions == a.relationship_definitions
}

/// A Node is created exactly where its ID was never issued, in a batch as alone: a blank active Node
/// comes, its ID is issued, and every other fact is as it was. Alone it makes the next revision.
pub proof fn law_node_is_created(m: RecordModel, ordinal: u64, id: NodeId)
    ensures
        ({
            let r = mutate(m, ordinal, Mutation::CreateNode { node_id: id });
            &&& r is Ok <==> !m.issued.contains(id)
            &&& r is Err ==> r->Err_0 is AlreadyExists
            &&& r is Ok ==> node_came(m, r->Ok_0, id, m.revision) && r->Ok_0.revision == m.revision
                && journal_grew(
                m,
                r->Ok_0,
                ordinal,
                ChangeKind::NodeCreated,
                Some(id),
                None,
                None,
            )
        }),
        m.revision < i64::MAX ==> ({
            let r = create_result(m, id);
            &&& r is Ok <==> !m.issued.contains(id)
            &&& r is Err ==> r->Err_0 is AlreadyExists
            &&& r is Ok ==> node_came(m, r->Ok_0, id, (m.revision + 1) as u64) && r->Ok_0.revision
                == m.revision + 1 && r->Ok_0.journal.len() == m.journal.len() + 1
                && r->Ok_0.journal.drop_last() == m.journal && r->Ok_0.journal.last().kind
                is NodeCreated && r->Ok_0.journal.last().node_id == Some(id)
        }),
{
    reveal(mutate);
    let r = mutate(m, ordinal, Mutation::CreateNode { node_id: id });
    if r is Ok {
        assert(r->Ok_0.nodes.dom() =~= m.nodes.dom().insert(id));
        assert(r->Ok_0.journal.drop_last() =~= m.journal);
    }
    let c = create_result(m, id);
    if c is Ok {
        assert(c->Ok_0.nodes.dom() =~= m.nodes.dom().insert(id));
        assert(c->Ok_0.journal.drop_last() =~= m.journal);
    }
}

proof fn lemma_reserve_tells(issued: Set<NodeId>, ids: Seq<NodeId>, n: nat)
    requires
        n <= ids.len(),
    ensures
        reserve_all(issued, ids, n) is Ok <==> (forall|i: int|
            0 <= i < n ==> !issued.contains(#[trigger] ids[i])) && (forall|i: int, j: int|
            0 <= i < j < n ==> #[trigger] ids[i] != #[trigger] ids[j]),
        reserve_all(issued, ids, n) is Ok ==> forall|id: NodeId| #[trigger]
            reserve_all(issued, ids, n)->Ok_0.contains(id) <==> issued.contains(id) || exists|
                i: int,
            |
                0 <= i < n && #[trigger] ids[i] == id,
        reserve_all(issued, ids, n) is Err ==> reserve_all(issued, ids, n)->Err_0 is AlreadyExists,
    decreases n,
{
    if n > 0 {
        let before = (n - 1) as nat;
        lemma_reserve_tells(issued, ids, before);
        let last = ids[n - 1];
        match reserve_all(issued, ids, before) {
            Ok(now) => {
                if now.contains(last) {
                    if !issued.contains(last) {
                        let i = choose|i: int| 0 <= i < before && #[trigger] ids[i] == last;
                        assert(ids[i] == ids[n - 1]);
                    }
                } else {
                    assert forall|i: int, j: int| 0 <= i < j < n implies #[trigger] ids[i]
                        != #[trigger] ids[j] by {
                        if j == n - 1 && ids[i] == last {
                            assert(now.contains(ids[i]));
                        }
                    }
                    let all = reserve_all(issued, ids, n)->Ok_0;
                    assert forall|id: NodeId| #[trigger] all.contains(id) <==> issued.contains(id)
                        || exists|i: int| 0 <= i < n && #[trigger] ids[i] == id by {
                        if id == last {
                            assert(ids[n - 1] == id);
                        }
                        if exists|i: int| 0 <= i < n && #[trigger] ids[i] == id {
                            let i = choose|i: int| 0 <= i < n && #[trigger] ids[i] == id;
                            if i < n - 1 {
                                assert(now.contains(id));
                            }
                        }
                    }
                }
            },
            Err(_) => {},
        }
    }
}

proof fn lemma_insert_tells(m: RecordModel, ids: Seq<NodeId>, n: nat)
    requires
        n <= ids.len(),
    ensures
        ({
            let k = insert_all(m, ids, n);
            &&& k.revision == m.revision
            &&& k.issued == m.issued
            &&& k.relationships == m.relationships
            &&& k.property_definitions == m.property_definitions
            &&& k.relationship_definitions == m.relationship_definitions
            &&& k.journal.len() == m.journal.len() + n
            &&& forall|id: NodeId| #[trigger]
                k.nodes.dom().contains(id) <==> m.nodes.dom().contains(id) || exists|i: int|
                    0 <= i < n && #[trigger] ids[i] == id
            &&& forall|i: int|
                0 <= i < n ==> is_blank_node(k.nodes[#[trigger] ids[i]], m.revision)
            &&& forall|id: NodeId|
                m.nodes.dom().contains(id) && !(exists|i: int| 0 <= i < n && #[trigger] ids[i] == id)
                    ==> #[trigger] k.nodes[id] == m.nodes[id]
        }),
    decreases n,
{
    if n > 0 {
        lemma_insert_tells(m, ids, (n - 1) as nat);
        let before = insert_all(m, ids, (n - 1) as nat);
        let k = insert_all(m, ids, n);
        assert forall|id: NodeId| #[trigger] k.nodes.dom().contains(id) <==> m.nodes.dom().contains(
            id,
        ) || exists|i: int| 0 <= i < n && #[trigger] ids[i] == id by {
            if id == ids[n - 1] {
                assert(ids[n - 1] == id);
            }
            assert(before.nodes.dom().contains(id) <==> m.nodes.dom().contains(id) || exists|i: int|
                0 <= i < n - 1 && #[trigger] ids[i] == id);
        }
        assert forall|i: int| 0 <= i < n implies is_blank_node(
            k.nodes[#[trigger] ids[i]],
            m.revision,
        ) by {
            if ids[i] != ids[n - 1] {
                assert(is_blank_node(before.nodes[ids[i]], m.revision));
            }
        }
        assert forall|id: NodeId|
            m.nodes.dom().contains(id) && !(exists|i: int|
                0 <= i < n && #[trigger] ids[i] == id) implies #[trigger] k.nodes[id]
            == m.nodes[id] by {
            assert(id != ids[n - 1]);
            assert(!(exists|i: int| 0 <= i < n - 1 && #[trigger] ids[i] == id));
        }
    }
}

/// Several Nodes are created together exactly where there is at least one, no ID was issued before
/// and none occurs twice. Then all of them are blank active Nodes of the one next revision, their IDs
/// are issued, and every other fact is as it was.
pub proof fn law_nodes_are_created(m: RecordModel, ids: Seq<NodeId>)
    requires
        m.revision < i64::MAX,
    ensures
        ({
            let r = create_all_result(m, ids);
            &&& r is Ok <==> ids.len() > 0 && (forall|i: int|
                0 <= i < ids.len() ==> !m.issued.contains(#[trigger] ids[i])) && (forall|
                i: int,
                j: int,
            |
                0 <= i < j < ids.len() ==> #[trigger] ids[i] != #[trigger] ids[j])
            &&& ids.len() == 0 ==> r->Err_0 is Conflict
            &&& ids.len() > 0 && r is Err ==> r->Err_0 is AlreadyExists
            &&& match r {
                Ok(n) => {
                    &&& n.revision == m.revision + 1
                    &&& forall|i: int|
                        0 <= i < ids.len() ==> {
                            &&& n.issued.contains(#[trigger] ids[i])
                            &&& n.nodes.dom().contains(ids[i])
                            &&& is_blank_node(n.nodes[ids[i]], n.revision)
                        }
                    &&& forall|id: NodeId|
                        !ids.contains(id) ==> (#[trigger] n.issued.contains(id)
                            <==> m.issued.contains(id))
                    &&& forall|id: NodeId|
                        !ids.contains(id) ==> (#[trigger] n.nodes.dom().contains(id)
                            <==> m.nodes.dom().contains(id))
                    &&& forall|id: NodeId|
                        !ids.contains(id) && m.nodes.dom().contains(id) ==> #[trigger] n.nodes[id]
                            == m.nodes[id]
                    &&& n.relationships == m.relationships
                    &&& n.property_definitions == m.property_definitions
                    &&& n.relationship_definitions == m.relationship_definitions
                    &&& n.journal.len() == m.journal.len() + ids.len()
                },
                Err(_) => true,
            }
        }),
{
    lemma_reserve_tells(m.issued, ids, ids.len());
    match reserve_all(m.issued, ids, ids.len()) {
        Ok(issued) => {
            let next = RecordModel { revision: (m.revision + 1) as u64, issued, ..m };
            lemma_insert_tells(next, ids, ids.len());
            let r = create_all_result(m, ids);
            if ids.len() > 0 {
                let n = r->Ok_0;
                assert(n == insert_all(next, ids, ids.len()));
                assert forall|i: int| 0 <= i < ids.len() implies n.issued.contains(
                    #[trigger] ids[i],
                ) && n.nodes.dom().contains(ids[i]) && is_blank_node(
                    n.nodes[ids[i]],
                    n.revision,
                ) by {
                    assert(ids[i] == ids[i]);
                    assert(issued.contains(ids[i]));
                }
                assert forall|id: NodeId| !ids.contains(id) implies (#[trigger] n.issued.contains(id)
                    <==> m.issued.contains(id)) by {
                    assert(issued.contains(id) <==> m.issued.contains(id) || exists|i: int|
                        0 <= i < ids.len() && #[trigger] ids[i] == id);
                }
            }
        },
        Err(_) => {},
    }
}

/// A batch makes one new revision, and its changes come one after the other, each in the store that
/// those before it made: a longer batch does what the shorter one did, and then its last change, and
/// where the shorter one fails, the longer one fails alike. An empty batch is a conflict.
pub proof fn law_batch_goes_step_by_step(m: RecordModel, mutations: Seq<Mutation>, last: Mutation)
    requires
        m.revision < i64::MAX,
    ensures
        batch_result(m, Seq::empty()) is Err,
        batch_result(m, Seq::empty())->Err_0 is Conflict,
        batch_result(m, seq![last]) == mutate(
            RecordModel { revision: (m.revision + 1) as u64, ..m },
            0,
            last,
        ),
        mutations.len() > 0 ==> batch_result(m, mutations.push(last)) == match batch_result(
            m,
            mutations,
        ) {
            Ok(n) => mutate(n, mutations.len() as u64, last),
            Err(e) => Err(e),
        },
{
    reveal_with_fuel(mutate_all, 2);
    let next = RecordModel { revision: (m.revision + 1) as u64, ..m };
    let longer = mutations.push(last);
    lemma_prefix_goes_alike(next, mutations, last, mutations.len());
    assert(longer[mutations.len() as int] == last);
    assert(seq![last][0] == last);
    assert(mutate_all(next, seq![last], 1) == mutate(next, 0, last));
}

proof fn lemma_prefix_goes_alike(m: RecordModel, mutations: Seq<Mutation>, last: Mutation, n: nat)
    requires
        n <= mutations.len(),
    ensures
        mutate_all(m, mutations.push(last), n) == mutate_all(m, mutations, n),
    decreases n,
{
    if n > 0 {
        lemma_prefix_goes_alike(m, mutations, last, (n - 1) as nat);
        assert(mutations.push(last)[n - 1] == mutations[n - 1]);
    }
}

/// A batch that commits leaves the revision one higher, and one journal entry of that revision for
/// each of its changes behind those there were, numbered in their order. Definitions stay.
pub proof fn law_batch_makes_one_revision(m: RecordModel, mutations: Seq<Mutation>, n: RecordModel)
    requires
        m.revision < i64::MAX,
        mutations.len() <= u64::MAX,
        batch_result(m, mutations) == Ok::<RecordModel, ErrorView>(n),
    ensures
        n.revision == m.revision + 1,
        n.journal.len() == m.journal.len() + mutations.len(),
        forall|i: int| 0 <= i < m.journal.len() ==> #[trigger] n.journal[i] == m.journal[i],
        forall|i: int|
            0 <= i < mutations.len() ==> (#[trigger] n.journal[m.journal.len() + i]).revision
                == n.revision && n.journal[m.journal.len() + i].ordinal == i,
        n.property_definitions == m.property_definitions,
        n.relationship_definitions == m.relationship_definitions,
{
    let next = RecordModel { revision: (m.revision + 1) as u64, ..m };
    lemma_run_makes_one_revision(next, mutations, mutations.len(), n);
}

proof fn lemma_run_makes_one_revision(
    m: RecordModel,
    mutations: Seq<Mutation>,
    count: nat,
    n: RecordModel,
)
    requires
        count <= mutations.len() <= u64::MAX,
        mutate_all(m, mutations, count) == Ok::<RecordModel, ErrorView>(n),
    ensures
        n.revision == m.revision,
        n.journal.len() == m.journal.len() + count,
        forall|i: int| 0 <= i < m.journal.len() ==> #[trigger] n.journal[i] == m.journal[i],
        forall|i: int|
            0 <= i < count ==> (#[trigger] n.journal[m.journal.len() + i]).revision == m.revision
                && n.journal[m.journal.len() + i].ordinal == i,
        n.property_definitions == m.property_definitions,
        n.relationship_definitions == m.relationship_definitions,
    decreases count,
{
    if count > 0 {
        let k = mutate_all(m, mutations, (count - 1) as nat)->Ok_0;
        lemma_run_makes_one_revision(m, mutations, (count - 1) as nat, k);
        reveal(mutate);
        let ordinal = (count - 1) as u64;
        assert(mutate(k, ordinal, mutations[count - 1]) == Ok::<RecordModel, ErrorView>(n));
        assert(n.revision == k.revision);
        assert(n.journal.len() == k.journal.len() + 1 && n.journal.drop_last() =~= k.journal
            && n.journal.last().revision == k.revision && n.journal.last().ordinal == ordinal);
        assert forall|i: int| 0 <= i < m.journal.len() implies #[trigger] n.journal[i]
            == m.journal[i] by {
            assert(n.journal.drop_last()[i] == k.journal[i]);
        }
        assert forall|i: int| 0 <= i < count implies (
        #[trigger] n.journal[m.journal.len() + i]).revision == m.revision && n.journal[m.journal.len()
            + i].ordinal == i by {
            let at = m.journal.len() + i;
            if i < count - 1 {
                assert(n.journal.drop_last()[at] == k.journal[at]);
            } else {
                assert(n.journal[at] == n.journal.last());
            }
        }
    }
}

/// What an ID stands for follows from the ledger and the Nodes: an active or a tombstoned Node that
/// is there, a retired ID that was issued and has no Node, or one that was never issued.
pub proof fn law_ids_are_resolved(m: RecordModel, id: NodeId)
    ensures
        resolution(m, id) is Active <==> m.nodes.dom().contains(id) && m.nodes[id].lifecycle_state
            is Active,
        resolution(m, id) is Tombstoned <==> m.nodes.dom().contains(id)
            && m.nodes[id].lifecycle_state is Tombstoned,
        resolution(m, id) is Retired <==> !m.nodes.dom().contains(id) && m.issued.contains(id),
        resolution(m, id) is NeverIssued <==> !m.nodes.dom().contains(id) && !m.issued.contains(id),
{
}

/// Once a Property is set in a batch of its own, its value has the kind that the definition of its
/// key expects, if there is one that expects any.
pub proof fn law_facts_have_the_expected_kind(
    m: RecordModel,
    id: NodeId,
    key: String,
    value: PropertyValue,
    kind: PropertyValueKind,
)
    requires
        m.revision < i64::MAX,
        m.property_definitions.dom().contains(key@),
        m.property_definitions[key@].definition.expected_value_kind == Some(kind),
    ensures
        ({
            let r = batch_result(m, seq![Mutation::SetProperty { node_id: id, key, value }]);
            &&& !is_of_kind(value, kind) ==> r is Err
            &&& !is_of_kind(value, kind) && key_fault(key@, KeyUse::Property) is None
                && value_fault(value@) is None && is_in_state(m, id, LifecycleState::Active)
                && m.property_definitions[key@].definition.state == DefinitionState::Active
                ==> r->Err_0 is InvalidPropertyValue
            &&& r is Ok ==> is_of_kind(value, kind)
        }),
{
    let set = Mutation::SetProperty { node_id: id, key, value };
    let next = RecordModel { revision: (m.revision + 1) as u64, ..m };
    law_batch_goes_step_by_step(m, Seq::empty(), set);
    law_property_is_set(next, 0, id, key, value);
}

/// What is read of a Property in the store that setting it made is the value that was set, of whatever
/// kind it is; only the real minus zero is read as zero.
pub proof fn law_what_is_set_is_read(
    m: RecordModel,
    id: NodeId,
    key: String,
    value: PropertyValue,
    n: RecordModel,
    read: Result<Option<PropertyValue>, CoreError>,
)
    requires
        m.revision < i64::MAX,
        batch_result(m, seq![Mutation::SetProperty { node_id: id, key, value }]) == Ok::<
            RecordModel,
            ErrorView,
        >(n),
        property_answers(read, n, id, key@),
    ensures
        read is Ok,
        read->Ok_0 is Some,
        ({
            let found = read->Ok_0->0;
            match (value, found) {
                (PropertyValue::Null, PropertyValue::Null) => true,
                (PropertyValue::Boolean(a), PropertyValue::Boolean(b)) => a == b,
                (PropertyValue::Integer(a), PropertyValue::Integer(b)) => a == b,
                (PropertyValue::Real(a), PropertyValue::Real(b)) => if a.bits
                    == 0x8000_0000_0000_0000 {
                    b.bits == 0
                } else {
                    a.bits == b.bits && a.text@ == b.text@
                },
                (PropertyValue::Text(a), PropertyValue::Text(b)) => a@ == b@,
                (PropertyValue::Date(a), PropertyValue::Date(b)) => a@ == b@,
                (PropertyValue::DateTime(a), PropertyValue::DateTime(b)) => a@ == b@,
                (PropertyValue::List(a), PropertyValue::List(b)) => a@.len() == b@.len() && forall|
                    i: int,
                |
                    0 <= i < a@.len() ==> (#[trigger] a@[i])@ == b@[i]@,
                (PropertyValue::Structured(a), PropertyValue::Structured(b)) => a@ == b@,
                _ => false,
            }
        }),
{
    let set = Mutation::SetProperty { node_id: id, key, value };
    let next = RecordModel { revision: (m.revision + 1) as u64, ..m };
    law_batch_goes_step_by_step(m, Seq::empty(), set);
    law_property_is_set(next, 0, id, key, value);
    match read {
        Ok(Some(found)) => {
            if !(value is Real) {
                crate::basics::law_views_tell_values_apart(value, found);
            }
        },
        _ => {},
    }
}

/// A Node is read exactly where it is there, in the state in which it is; a Property exactly where its
/// key is valid and its Node is there, with its value where the Node has it.
pub proof fn law_reads_answer_what_stands(
    m: RecordModel,
    id: NodeId,
    key: Seq<char>,
    node: Result<Node, CoreError>,
    property: Result<Option<PropertyValue>, CoreError>,
)
    requires
        node_answers(node, m, id),
        property_answers(property, m, id, key),
    ensures
        node is Ok <==> m.nodes.dom().contains(id),
        node is Ok ==> node->Ok_0.id == id && (node->Ok_0.lifecycle_state is Active <==> is_in_state(
            m,
            id,
            LifecycleState::Active,
        )),
        node is Err ==> node->Err_0@ is NotFound,
        property is Ok <==> key_fault(key, KeyUse::Property) is None && m.nodes.dom().contains(id),
        property is Ok ==> (property->Ok_0 is Some <==> m.nodes[id].properties.dom().contains(key)),
        property is Ok && property->Ok_0 is Some ==> property->Ok_0->0@
            == m.nodes[id].properties[key].value,
        key_fault(key, KeyUse::Property) is None && property is Err ==> property->Err_0@
            is NotFound,
{
}

/// Every failure names what it is about: the Node, the ID, the Relationship or the key that it was
/// asked for, and which state or kind was wanted and which was found.
pub proof fn law_failures_name_their_subject(
    m: RecordModel,
    ordinal: u64,
    id: NodeId,
    key: String,
    value: PropertyValue,
    target: NodeId,
)
    ensures
        ({
            let r = mutate(m, ordinal, Mutation::TombstoneNode { node_id: id });
            &&& !m.nodes.dom().contains(id) ==> r->Err_0 == (ErrorView::NotFound {
                entity: "Node"@,
                identifier: id.text(),
            })
            &&& is_in_state(m, id, LifecycleState::Tombstoned) ==> r->Err_0 == ErrorView::Conflict(
                "Node "@ + id.text() + " is "@ + "Tombstoned"@ + "; operation requires "@
                    + "Active"@,
            )
        }),
        ({
            let r = mutate(m, ordinal, Mutation::RestoreNode { node_id: id });
            is_in_state(m, id, LifecycleState::Active) ==> r->Err_0 == ErrorView::Conflict(
                "Node "@ + id.text() + " is "@ + "Active"@ + "; operation requires "@
                    + "Tombstoned"@,
            )
        }),
        m.issued.contains(id) ==> mutate(m, ordinal, Mutation::CreateNode { node_id: id })->Err_0
            == (ErrorView::AlreadyExists { entity: "Issued Node ID"@, identifier: id.text() }),
        ({
            let r = mutate(m, ordinal, Mutation::RemoveProperty { node_id: id, key });
            key_fault(key@, KeyUse::Property) is None && is_in_state(m, id, LifecycleState::Active)
                && !m.nodes[id].properties.dom().contains(key@) ==> r->Err_0 == (
            ErrorView::NotFound { entity: "Property"@, identifier: key@ })
        }),
        ({
            let r = mutate(
                m,
                ordinal,
                Mutation::RemoveRelationship { source: id, key, target },
            );
            let link = RelationshipView { source: id, key: key@, target };
            &&& key_fault(key@, KeyUse::Relationship) is None && !m.issued.contains(id)
                ==> r->Err_0 == (ErrorView::NotFound {
                entity: "issued Node ID"@,
                identifier: id.text(),
            })
            &&& key_fault(key@, KeyUse::Relationship) is None && m.issued.contains(id)
                && !m.issued.contains(target) ==> r->Err_0 == (ErrorView::NotFound {
                entity: "issued Node ID"@,
                identifier: target.text(),
            })
            &&& key_fault(key@, KeyUse::Relationship) is None && m.issued.contains(id)
                && m.issued.contains(target) && !m.relationships.dom().contains(link) ==> r->Err_0
                == (ErrorView::NotFound {
                entity: "Relationship"@,
                identifier: id.text() + " --"@ + key@ + "--> "@ + target.text(),
            })
        }),
        ({
            let r = mutate(m, ordinal, Mutation::SetProperty { node_id: id, key, value });
            let definition = m.property_definitions[key@].definition;
            key_fault(key@, KeyUse::Property) is None && value_fault(value@) is None && is_in_state(
                m,
                id,
                LifecycleState::Active,
            ) && m.property_definitions.dom().contains(key@) ==> {
                &&& definition.state is Deprecated ==> r->Err_0 == ErrorView::Conflict(
                    "property definition "@ + key@ + " is deprecated"@,
                )
                &&& definition.state is Active && definition.expected_value_kind == Some(
                    PropertyValueKind::Integer,
                ) && value is Text ==> r->Err_0 == ErrorView::InvalidPropertyValue(
                    "property "@ + key@ + " expects "@ + "Integer"@ + ", received "@ + "Text"@,
                )
            }
        }),
{
    reveal(mutate);
}

/// There is no revision after the greatest one that a database can hold: at that one nothing is
/// committed any more.
pub proof fn law_revisions_end(m: RecordModel, mutations: Seq<Mutation>, id: NodeId)
    requires
        m.revision >= i64::MAX,
    ensures
        mutations.len() > 0 ==> batch_result(m, mutations) is Err && batch_result(
            m,
            mutations,
        )->Err_0 is Database,
        create_result(m, id) is Err,
        !m.issued.contains(id) ==> create_result(m, id)->Err_0 is Database,
{
}

} // verus!
