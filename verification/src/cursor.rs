//! The tokens of keyset traversal.
use vstd::prelude::*;
use vstd::utf8::{encode_scalar, encode_utf8};
use crate::api::{texts_view, ReadCursor};
use crate::error::{conflict, CoreError, ErrorView};
use crate::json::{
    after_spaces, from_place, json_texts, lemma_utf8_concat, lemma_utf8_one, member_text,
    members_read, members_view, members_written, object_rest, read_object, skip_spaces, JsonMember,
    JsonMemberView, Written, WrittenMember,
};
use crate::text::{
    decimal, decimal_of, hex, hex_of, hex_pairs_value, law_hex_round_trip, parse_hex, same_text,
};
use crate::value::{json_escape, json_escaped, json_string, json_string_of};

verus! {

/// What a read cursor carries: the traversal it belongs to, the revision that the traversal was
/// begun at, and the position after which it goes on.
#[derive(Debug, Clone, PartialEq, Eq)]
pub struct CursorPayload {
    pub version: u8,
    pub collection: String,
    pub revision: u64,
    pub after: Vec<String>,
}

/// A payload, its texts taken as sequences of characters.
pub struct PayloadView {
    pub version: u8,
    pub collection: Seq<char>,
    pub revision: u64,
    pub after: Seq<Seq<char>>,
}

impl View for CursorPayload {
    type V = PayloadView;

    open spec fn view(&self) -> PayloadView {
        PayloadView {
            version: self.version,
            collection: self.collection@,
            revision: self.revision,
            after: texts_view(self.after@),
        }
    }
}

/// The JSON text of a payload of the current version.
pub open spec fn payload_text(collection: Seq<char>, revision: u64, after: Seq<Seq<char>>) -> Seq<
    char,
> {
    "{\"version\":1,\"collection\":"@ + json_string_of(collection) + ",\"revision\":"@
        + decimal_of(revision as nat) + ",\"after\":"@ + json_texts(after, after.len()) + "]}"@
}

/// The token of a payload: the bytes of its JSON text in hexadecimal notation.
pub open spec fn cursor_token(collection: Seq<char>, revision: u64, after: Seq<Seq<char>>) -> Seq<
    char,
> {
    hex_of(encode_utf8(payload_text(collection, revision, after)))
}

/// Makes the token that goes on after a position of a traversal.
pub fn encode_cursor(collection: &str, revision: u64, after: &Vec<String>) -> (r: ReadCursor)
    ensures
        r@ == cursor_token(collection@, revision, texts_view(after@)),
{
    let ghost texts = texts_view(after@);
    let mut json = "{\"version\":1,\"collection\":".to_owned();
    let collection_json = json_string(collection);
    json.append(collection_json.as_str());
    json.append(",\"revision\":");
    let revision_text = decimal(revision as u128);
    json.append(revision_text.as_str());
    json.append(",\"after\":");
    let mut list = "[".to_owned();
    let mut i: usize = 0;
    while i < after.len()
        invariant
            i <= after@.len(),
            texts == texts_view(after@),
            list@ == json_texts(texts, i as nat),
        decreases after@.len() - i,
    {
        if i > 0 {
            list.append(",");
        }
        proof {
            assert(list@ =~= json_texts(texts, i as nat) + (if i == 0 {
                ""@
            } else {
                ","@
            })) by {
                reveal_strlit("");
            }
        }
        let item = json_string(after[i].as_str());
        list.append(item.as_str());
        i = i + 1;
    }
    json.append(list.as_str());
    json.append("]}");
    ReadCursor::from_token(hex(json.as_str().as_bytes()))
}

/// The JSON text of an array of four items: a number, a text, a number, and some texts.
pub open spec fn tuple_text(
    first: u8,
    second: Seq<char>,
    third: u64,
    fourth: Seq<Seq<char>>,
) -> Seq<char> {
    "["@ + decimal_of(first as nat) + ","@ + json_string_of(second) + ","@ + decimal_of(
        third as nat,
    ) + ","@ + (json_texts(fourth, fourth.len()) + "]"@) + "]"@
}

/// What serde_json reads in some bytes as an array of four items: a number, a text, a number, and
/// some texts; or nothing where the bytes hold no JSON of that form.
pub uninterp spec fn tuple_read(bytes: Seq<u8>) -> Option<(u8, Seq<char>, u64, Seq<Seq<char>>)>;

/// `serde_json::from_slice` into a tuple of a `u8`, a `String`, a `u64` and a `Vec<String>`: what is
/// read depends on the bytes alone, and in the JSON text of an array of four such items those are
/// read.
#[verifier::external_body]
fn read_tuple(bytes: &[u8]) -> (r: Option<(u8, String, u64, Vec<String>)>)
    ensures
        match r {
            Some(items) => tuple_read(bytes@) == Some(
                (items.0, items.1@, items.2, texts_view(items.3@)),
            ),
            None => tuple_read(bytes@) is None,
        },
        forall|first: u8, second: Seq<char>, third: u64, fourth: Seq<Seq<char>>|
            bytes@ == encode_utf8(#[trigger] tuple_text(first, second, third, fourth)) ==> match r {
                Some(items) => items.0 == first && items.1@ == second && items.2 == third
                    && texts_view(items.3@) == fourth,
                None => false,
            },
{
    serde_json::from_slice(bytes).ok()
}

/// What is read of a payload in bytes that hold its four parts as an array.
pub open spec fn array_read(bytes: Seq<u8>) -> Option<PayloadView> {
    match tuple_read(bytes) {
        Some((version, collection, revision, after)) => Some(
            PayloadView { version, collection, revision, after },
        ),
        None => None,
    }
}

/// The value of the member of a name, where there is exactly one.
pub open spec fn sole(members: Seq<JsonMemberView>, name: Seq<char>) -> Option<Seq<u8>> {
    let named = members.filter(|m: JsonMemberView| m.name == name);
    if named.len() == 1 {
        Some(named[0].value)
    } else {
        None
    }
}

/// The bytes of an array of four values.
pub open spec fn array_of(a: Seq<u8>, b: Seq<u8>, c: Seq<u8>, d: Seq<u8>) -> Seq<u8> {
    seq![0x5bu8] + a + seq![0x2cu8] + b + seq![0x2cu8] + c + seq![0x2cu8] + d + seq![0x5du8]
}

/// What is read of a payload in the members of an object: each of its four parts is there once, and
/// other members do not count.
pub open spec fn object_read(members: Seq<JsonMemberView>) -> Option<PayloadView> {
    let version = sole(members, "version"@);
    let collection = sole(members, "collection"@);
    let revision = sole(members, "revision"@);
    let after = sole(members, "after"@);
    if version is Some && collection is Some && revision is Some && after is Some {
        array_read(array_of(version->0, collection->0, revision->0, after->0))
    } else {
        None
    }
}

/// What is read of a payload in the bytes of a token: an object of its four parts, or an array of
/// them.
pub open spec fn payload_read(bytes: Seq<u8>) -> Option<PayloadView> {
    let begun = after_spaces(bytes);
    if begun.len() > 0 && begun[0] == 0x7b {
        match members_read(begun.skip(1), true) {
            Some(members) => object_read(members),
            None => None,
        }
    } else {
        array_read(bytes)
    }
}

/// A text without quotes, backslashes and control characters stands in JSON as it is.
proof fn lemma_plain_json(text: Seq<char>)
    requires
        forall|i: int| 0 <= i < text.len() ==> json_escape(#[trigger] text[i]) == seq![text[i]],
    ensures
        json_string_of(text) == seq!['"'] + text + seq!['"'],
{
    lemma_plain_escaped(text);
}

proof fn lemma_plain_escaped(text: Seq<char>)
    requires
        forall|i: int| 0 <= i < text.len() ==> json_escape(#[trigger] text[i]) == seq![text[i]],
    ensures
        json_escaped(text) == text,
    decreases text.len(),
{
    if text.len() > 0 {
        let head = text.drop_last();
        assert forall|i: int| 0 <= i < head.len() implies json_escape(#[trigger] head[i])
            == seq![head[i]] by {
            assert(head[i] == text[i]);
        }
        lemma_plain_escaped(head);
        assert(text[text.len() - 1] == text.last());
        assert(head + seq![text.last()] =~= text);
    } else {
        assert(json_escaped(text) =~= text);
    }
}

/// The members of a payload as they are written.
pub open spec fn payload_members(
    collection: Seq<char>,
    revision: u64,
    after: Seq<Seq<char>>,
) -> Seq<WrittenMember> {
    seq![
        WrittenMember { name: "version"@, value: Written::Number(1) },
        WrittenMember { name: "collection"@, value: Written::Text(collection) },
        WrittenMember { name: "revision"@, value: Written::Number(revision) },
        WrittenMember { name: "after"@, value: Written::Texts(after) },
    ]
}

/// The text of a payload is that of an object with its four members.
proof fn lemma_payload_members(collection: Seq<char>, revision: u64, after: Seq<Seq<char>>)
    ensures
        payload_text(collection, revision, after) == "{"@ + object_rest(
            payload_members(collection, revision, after),
            0,
        ),
{
    reveal_strlit("version");
    reveal_strlit("collection");
    reveal_strlit("revision");
    reveal_strlit("after");
    reveal_strlit("{");
    reveal_strlit("}");
    reveal_strlit("]");
    reveal_strlit("]}");
    reveal_strlit(":");
    reveal_strlit(",");
    reveal_strlit("");
    reveal_strlit("{\"version\":1,\"collection\":");
    reveal_strlit(",\"revision\":");
    reveal_strlit(",\"after\":");
    lemma_plain_json("version"@);
    lemma_plain_json("collection"@);
    lemma_plain_json("revision"@);
    lemma_plain_json("after"@);
    assert(decimal_of(1) =~= seq!['1']) by {
        reveal_with_fuel(decimal_of, 2);
    }
    let members = payload_members(collection, revision, after);
    reveal_with_fuel(object_rest, 5);
    let list = json_texts(after, after.len());
    let p0 = "{"@ + member_text(members[0]) + ","@ + json_string_of("collection"@) + ":"@;
    assert(p0 =~= "{\"version\":1,\"collection\":"@);
    let p2 = ","@ + json_string_of("revision"@) + ":"@;
    assert(p2 =~= ",\"revision\":"@);
    let p4 = ","@ + json_string_of("after"@) + ":"@;
    assert(p4 =~= ",\"after\":"@);
    let rest = object_rest(members, 0);
    assert(object_rest(members, 4) == "}"@);
    assert("{"@ + rest =~= p0 + json_string_of(collection) + p2 + decimal_of(revision as nat) + p4
        + list + "]}"@);
}

/// Of members whose names differ, each is the sole one of its name.
proof fn lemma_sole_of_four(
    a: JsonMemberView,
    b: JsonMemberView,
    c: JsonMemberView,
    d: JsonMemberView,
    name: Seq<char>,
)
    requires
        a.name != b.name && a.name != c.name && a.name != d.name && b.name != c.name && b.name
            != d.name && c.name != d.name,
    ensures
        name == a.name ==> sole(seq![a, b, c, d], name) == Some(a.value),
        name == b.name ==> sole(seq![a, b, c, d], name) == Some(b.value),
        name == c.name ==> sole(seq![a, b, c, d], name) == Some(c.value),
        name == d.name ==> sole(seq![a, b, c, d], name) == Some(d.value),
{
    let is_named = |m: JsonMemberView| m.name == name;
    let none = Seq::<JsonMemberView>::empty();
    let one = none.push(a);
    let two = one.push(b);
    let three = two.push(c);
    assert(seq![a, b, c, d] =~= three.push(d));
    none.lemma_filter_push(a, is_named);
    one.lemma_filter_push(b, is_named);
    two.lemma_filter_push(c, is_named);
    three.lemma_filter_push(d, is_named);
    assert(none.filter(is_named) =~= none) by {
        reveal(Seq::filter);
    }
}

/// The bytes of a payload are those of an object whose members give it back.
proof fn lemma_payload_reads(collection: Seq<char>, revision: u64, after: Seq<Seq<char>>)
    ensures
        ({
            let bytes = encode_utf8(payload_text(collection, revision, after));
            let written = payload_members(collection, revision, after);
            let members = members_written(written);
            &&& bytes.len() > 0
            &&& bytes[0] == 0x7b
            &&& after_spaces(bytes) == bytes
            &&& bytes.skip(1) == encode_utf8(object_rest(written, 0))
            &&& sole(members, "version"@) is Some
            &&& sole(members, "collection"@) is Some
            &&& sole(members, "revision"@) is Some
            &&& sole(members, "after"@) is Some
            &&& array_of(
                sole(members, "version"@)->0,
                sole(members, "collection"@)->0,
                sole(members, "revision"@)->0,
                sole(members, "after"@)->0,
            ) == encode_utf8(tuple_text(1, collection, revision, after))
        }),
{
    let written = payload_members(collection, revision, after);
    let members = members_written(written);
    lemma_payload_members(collection, revision, after);
    reveal_strlit("{");
    reveal_strlit("[");
    reveal_strlit("]");
    reveal_strlit(",");
    assert("{"@ =~= seq!['{']);
    assert("["@ =~= seq!['[']);
    assert("]"@ =~= seq![']']);
    assert(","@ =~= seq![',']);
    lemma_utf8_one('{');
    lemma_utf8_one('[');
    lemma_utf8_one(']');
    lemma_utf8_one(',');
    lemma_utf8_concat("{"@, object_rest(written, 0));
    let bytes = encode_utf8(payload_text(collection, revision, after));
    assert(bytes.skip(1) =~= encode_utf8(object_rest(written, 0)));
    reveal_strlit("version");
    reveal_strlit("collection");
    reveal_strlit("revision");
    reveal_strlit("after");
    assert("version"@.len() == 7 && "collection"@.len() == 10 && "revision"@.len() == 8
        && "after"@.len() == 5);
    assert(members =~= seq![members[0], members[1], members[2], members[3]]);
    lemma_sole_of_four(members[0], members[1], members[2], members[3], "version"@);
    lemma_sole_of_four(members[0], members[1], members[2], members[3], "collection"@);
    lemma_sole_of_four(members[0], members[1], members[2], members[3], "revision"@);
    lemma_sole_of_four(members[0], members[1], members[2], members[3], "after"@);
    let v = decimal_of(1);
    let c = json_string_of(collection);
    let r = decimal_of(revision as nat);
    let a = json_texts(after, after.len()) + "]"@;
    let t1 = "["@ + v;
    let t2 = t1 + ","@;
    let t3 = t2 + c;
    let t4 = t3 + ","@;
    let t5 = t4 + r;
    let t6 = t5 + ","@;
    let t7 = t6 + a;
    lemma_utf8_concat("["@, v);
    lemma_utf8_concat(t1, ","@);
    lemma_utf8_concat(t2, c);
    lemma_utf8_concat(t3, ","@);
    lemma_utf8_concat(t4, r);
    lemma_utf8_concat(t5, ","@);
    lemma_utf8_concat(t6, a);
    lemma_utf8_concat(t7, "]"@);
    assert(members[0].value == encode_utf8(v));
    assert(members[1].value == encode_utf8(c));
    assert(members[2].value == encode_utf8(r));
    assert(members[3].value == encode_utf8(a));
}

/// The value of the member of a name, where there is exactly one.
fn find_sole<'a>(members: &Vec<JsonMember<'a>>, name: &str) -> (r: Option<&'a [u8]>)
    ensures
        match r {
            Some(value) => sole(members_view(members@), name@) == Some(value@),
            None => sole(members_view(members@), name@) is None,
        },
{
    let ghost all = members_view(members@);
    let ghost is_named = |m: JsonMemberView| m.name == name@;
    let mut found: Option<&'a [u8]> = None;
    let mut more = false;
    let mut i: usize = 0;
    proof {
        assert(all.subrange(0, 0).filter(is_named).len() == 0) by {
            reveal(Seq::filter);
        }
    }
    while i < members.len()
        invariant
            all == members_view(members@),
            is_named == (|m: JsonMemberView| m.name == name@),
            i <= members@.len(),
            ({
                let named = all.subrange(0, i as int).filter(is_named);
                &&& found is None <==> named.len() == 0
                &&& more <==> named.len() > 1
                &&& found is Some ==> named[0].value == found->0@
            }),
        decreases members@.len() - i,
    {
        proof {
            let before = all.subrange(0, i as int);
            assert(all.subrange(0, i + 1) =~= before.push(all[i as int]));
            before.lemma_filter_push(all[i as int], is_named);
            assert(all[i as int] == members@[i as int]@);
        }
        if same_text(members[i].name.as_str(), name) {
            if found.is_some() {
                more = true;
            } else {
                found = Some(members[i].value);
            }
        }
        i = i + 1;
    }
    proof {
        assert(all.subrange(0, i as int) =~= all);
    }
    if more {
        None
    } else {
        found
    }
}

fn add_bytes(bytes: &mut Vec<u8>, more: &[u8])
    ensures
        final(bytes)@ == old(bytes)@ + more@,
{
    let mut i: usize = 0;
    proof {
        assert(bytes@ =~= old(bytes)@ + more@.subrange(0, 0));
    }
    while i < more.len()
        invariant
            i <= more@.len(),
            bytes@ == old(bytes)@ + more@.subrange(0, i as int),
        decreases more@.len() - i,
    {
        bytes.push(more[i]);
        i = i + 1;
        proof {
            assert(bytes@ =~= old(bytes)@ + more@.subrange(0, i as int));
        }
    }
    proof {
        assert(more@.subrange(0, i as int) =~= more@);
    }
}

/// Reads a payload in bytes that hold its four parts as an array.
fn read_array(bytes: &[u8]) -> (r: Option<CursorPayload>)
    ensures
        match r {
            Some(payload) => array_read(bytes@) == Some(payload@),
            None => array_read(bytes@) is None,
        },
        forall|first: u8, second: Seq<char>, third: u64, fourth: Seq<Seq<char>>|
            bytes@ == encode_utf8(#[trigger] tuple_text(first, second, third, fourth)) ==> r is Some
                && r->0@ == (PayloadView {
                version: first,
                collection: second,
                revision: third,
                after: fourth,
            }),
{
    match read_tuple(bytes) {
        Some((version, collection, revision, after)) => Some(
            CursorPayload { version, collection, revision, after },
        ),
        None => None,
    }
}

/// Reads the payload in the bytes of a token.
fn read_payload(bytes: &[u8]) -> (r: Option<CursorPayload>)
    ensures
        match r {
            Some(payload) => payload_read(bytes@) == Some(payload@),
            None => payload_read(bytes@) is None,
        },
        forall|collection: Seq<char>, revision: u64, after: Seq<Seq<char>>|
            bytes@ == encode_utf8(#[trigger] payload_text(collection, revision, after)) ==> r is Some
                && r->0@ == (PayloadView { version: 1, collection, revision, after }),
{
    let begun = skip_spaces(bytes);
    if begun.len() == 0 || begun[0] != 0x7b {
        proof {
            assert forall|collection: Seq<char>, revision: u64, after: Seq<Seq<char>>|
                bytes@ != encode_utf8(#[trigger] payload_text(collection, revision, after)) by {
                lemma_payload_reads(collection, revision, after);
            }
        }
        return read_array(bytes);
    }
    let read = read_object(from_place(begun, 1));
    proof {
        assert forall|collection: Seq<char>, revision: u64, after: Seq<Seq<char>>|
            bytes@ == encode_utf8(
                #[trigger] payload_text(collection, revision, after),
            ) implies read is Some && members_view(read->0@) == members_written(
            payload_members(collection, revision, after),
        ) by {
            lemma_payload_reads(collection, revision, after);
        }
    }
    let members = match read {
        Some(members) => members,
        None => return None,
    };
    let version = find_sole(&members, "version");
    let collection = find_sole(&members, "collection");
    let revision = find_sole(&members, "revision");
    let after = find_sole(&members, "after");
    proof {
        assert forall|collection: Seq<char>, revision: u64, after: Seq<Seq<char>>|
            bytes@ == encode_utf8(
                #[trigger] payload_text(collection, revision, after),
            ) implies sole(members_view(members@), "version"@) is Some && sole(
            members_view(members@),
            "collection"@,
        ) is Some && sole(members_view(members@), "revision"@) is Some && sole(
            members_view(members@),
            "after"@,
        ) is Some by {
            lemma_payload_reads(collection, revision, after);
        }
    }
    match (version, collection, revision, after) {
        (Some(v), Some(c), Some(r), Some(a)) => {
            let mut list: Vec<u8> = vec![0x5bu8];
            add_bytes(&mut list, v);
            list.push(0x2cu8);
            add_bytes(&mut list, c);
            list.push(0x2cu8);
            add_bytes(&mut list, r);
            list.push(0x2cu8);
            add_bytes(&mut list, a);
            list.push(0x5du8);
            proof {
                assert(list@ =~= array_of(v@, c@, r@, a@));
                assert forall|collection: Seq<char>, revision: u64, after: Seq<Seq<char>>|
                    bytes@ == encode_utf8(
                        #[trigger] payload_text(collection, revision, after),
                    ) implies list@ == encode_utf8(tuple_text(1, collection, revision, after)) by {
                    lemma_payload_reads(collection, revision, after);
                }
            }
            read_array(list.as_slice())
        },
        _ => None,
    }
}

/// Why a token is refused whose bytes cannot be read.
pub open spec fn unreadable_cursor() -> ErrorView {
    ErrorView::Conflict("invalid or unsupported read cursor"@)
}

/// The bytes that a token carries: hexadecimal pairs, at least one and at most 4096 of them.
pub open spec fn token_bytes(token: Seq<char>) -> Option<Seq<u8>> {
    let text = encode_utf8(token);
    if text.len() == 0 || text.len() > 8_192 {
        None
    } else {
        hex_pairs_value(text)
    }
}

/// What a cursor says to a traversal, given what was read in its bytes.
pub open spec fn payload_for(read: Option<PayloadView>, collection: Seq<char>) -> Result<
    PayloadView,
    ErrorView,
> {
    match read {
        None => Err(unreadable_cursor()),
        Some(payload) => if payload.version != 1 || payload.collection != collection {
            Err(ErrorView::Conflict("read cursor does not match this traversal contract"@))
        } else {
            Ok(payload)
        },
    }
}

/// What a token says to a traversal.
pub open spec fn cursor_read(token: Seq<char>, collection: Seq<char>) -> Result<
    PayloadView,
    ErrorView,
> {
    match token_bytes(token) {
        None => Err(unreadable_cursor()),
        Some(bytes) => payload_for(payload_read(bytes), collection),
    }
}

/// Refuses what was read in a token unless it is of the current version and of this traversal.
pub fn check_payload(read: Option<CursorPayload>, expected_collection: &str) -> (r: Result<
    CursorPayload,
    CoreError,
>)
    ensures
        match r {
            Ok(payload) => read == Some(payload) && payload_for(
                Some(payload@),
                expected_collection@,
            ) == Ok::<PayloadView, ErrorView>(payload@),
            Err(e) => payload_for(
                match read {
                    Some(p) => Some(p@),
                    None => None,
                },
                expected_collection@,
            ) == Err::<PayloadView, ErrorView>(e@),
        },
{
    match read {
        None => Err(conflict("invalid or unsupported read cursor")),
        Some(payload) => if payload.version != 1 || !same_text(
            payload.collection.as_str(),
            expected_collection,
        ) {
            Err(conflict("read cursor does not match this traversal contract"))
        } else {
            Ok(payload)
        },
    }
}

/// Reads a token for a traversal. A token of at most 8192 characters that [`encode_cursor`] made
/// for the same traversal reads as what it was made of.
pub fn decode_cursor(cursor: &ReadCursor, expected_collection: &str) -> (r: Result<
    CursorPayload,
    CoreError,
>)
    ensures
        match r {
            Ok(payload) => cursor_read(cursor@, expected_collection@) == Ok::<
                PayloadView,
                ErrorView,
            >(payload@),
            Err(e) => cursor_read(cursor@, expected_collection@) == Err::<PayloadView, ErrorView>(
                e@,
            ),
        },
        forall|revision: u64, after: Seq<Seq<char>>|
            cursor@ == #[trigger] cursor_token(expected_collection@, revision, after)
                && cursor@.len() <= 8_192 ==> r is Ok && r->Ok_0@ == (PayloadView {
                version: 1,
                collection: expected_collection@,
                revision,
                after,
            }),
{
    let text = cursor.token().as_bytes();
    let length: usize = text.len();
    proof {
        assert forall|revision: u64, after: Seq<Seq<char>>|
            cursor@ == #[trigger] cursor_token(expected_collection@, revision, after)
                && cursor@.len() <= 8_192 implies 0 < length <= 8_192 && hex_pairs_value(text@)
            == Some(encode_utf8(payload_text(expected_collection@, revision, after))) by {
            let bytes = encode_utf8(payload_text(expected_collection@, revision, after));
            lemma_payload_bytes_not_empty(expected_collection@, revision, after);
            lemma_hex_length(bytes);
            law_hex_round_trip(bytes);
        }
    }
    if length == 0 || length > 8_192 {
        return Err(conflict("invalid or unsupported read cursor"));
    }
    match parse_hex(text) {
        None => Err(conflict("invalid or unsupported read cursor")),
        Some(bytes) => {
            let read = read_payload(bytes.as_slice());
            check_payload(read, expected_collection)
        },
    }
}

/// Hexadecimal notation is ASCII: it has as many bytes as characters.
proof fn lemma_hex_length(bytes: Seq<u8>)
    ensures
        encode_utf8(hex_of(bytes)).len() == 2 * bytes.len(),
        hex_of(bytes).len() == 2 * bytes.len(),
{
    let text = hex_of(bytes);
    assert(vstd::utf8::is_ascii_chars(text)) by {
        assert forall|i: int| 0 <= i < text.len() implies 0 <= #[trigger] text[i] as nat <= 127 by {
        }
    }
    vstd::utf8::is_ascii_chars_encode_utf8(text);
}

proof fn lemma_payload_bytes_not_empty(
    collection: Seq<char>,
    revision: u64,
    after: Seq<Seq<char>>,
)
    ensures
        encode_utf8(payload_text(collection, revision, after)).len() > 0,
{
    let text = payload_text(collection, revision, after);
    reveal_strlit("{\"version\":1,\"collection\":");
    assert(text.len() > 0);
    vstd::utf8::encode_utf8_decode_utf8(text);
}

/// How many bytes a text has.
pub open spec fn byte_len(text: Seq<char>) -> nat {
    encode_utf8(text).len()
}

/// How many bytes some texts have together.
pub open spec fn total_bytes(texts: Seq<Seq<char>>, n: nat) -> nat
    decreases n,
{
    if n == 0 || n > texts.len() {
        0
    } else {
        total_bytes(texts, (n - 1) as nat) + byte_len(texts[n - 1])
    }
}

pub proof fn lemma_byte_len_concat(a: Seq<char>, b: Seq<char>)
    ensures
        byte_len(a + b) == byte_len(a) + byte_len(b),
    decreases a.len(),
{
    if a.len() == 0 {
        assert(a + b =~= b);
    } else {
        lemma_byte_len_concat(a.drop_first(), b);
        assert((a + b).drop_first() =~= a.drop_first() + b);
    }
}

pub proof fn lemma_byte_len_ascii(a: Seq<char>)
    requires
        vstd::utf8::is_ascii_chars(a),
    ensures
        byte_len(a) == a.len(),
{
    vstd::utf8::is_ascii_chars_encode_utf8(a);
}

proof fn lemma_byte_len_one(c: char)
    ensures
        byte_len(seq![c]) == encode_scalar(c as u32).len(),
        byte_len(seq![c]) >= 1,
{
    let s = seq![c];
    assert(s.drop_first() =~= Seq::<char>::empty());
    reveal_with_fuel(encode_utf8, 2);
    assert(encode_utf8(s.drop_first()) =~= Seq::<u8>::empty());
    assert(encode_utf8(s) =~= encode_scalar(c as u32));
}

/// Escaping makes a text at most six times as long.
proof fn lemma_escaped_bytes(text: Seq<char>)
    ensures
        byte_len(json_escaped(text)) <= 6 * byte_len(text),
    decreases text.len(),
{
    if text.len() == 0 {
        assert(json_escaped(text) =~= Seq::<char>::empty());
        assert(text =~= Seq::<char>::empty());
    } else {
        let c = text.last();
        lemma_escaped_bytes(text.drop_last());
        lemma_byte_len_concat(text.drop_last(), seq![c]);
        assert(text.drop_last() + seq![c] =~= text);
        lemma_byte_len_concat(json_escaped(text.drop_last()), json_escape(c));
        lemma_byte_len_one(c);
        if json_escape(c) != seq![c] {
            assert(json_escape(c).len() <= 6);
            lemma_byte_len_ascii(json_escape(c));
        }
    }
}

proof fn lemma_json_string_bytes(text: Seq<char>)
    ensures
        byte_len(json_string_of(text)) <= 6 * byte_len(text) + 2,
{
    lemma_escaped_bytes(text);
    lemma_byte_len_concat(seq!['"'], json_escaped(text));
    lemma_byte_len_concat(seq!['"'] + json_escaped(text), seq!['"']);
    lemma_byte_len_ascii(seq!['"']);
}

spec fn ten_to(k: nat) -> nat
    decreases k,
{
    if k == 0 {
        1
    } else {
        10 * ten_to((k - 1) as nat)
    }
}

proof fn lemma_decimal_bytes(n: nat, k: nat)
    requires
        k > 0,
        n < ten_to(k),
    ensures
        decimal_of(n).len() <= k,
        byte_len(decimal_of(n)) <= k,
        vstd::utf8::is_ascii_chars(decimal_of(n)),
    decreases k,
{
    if n >= 10 {
        assert(k > 1) by {
            if k == 1 {
                reveal_with_fuel(ten_to, 2);
            }
        }
        lemma_decimal_bytes(n / 10, (k - 1) as nat);
    }
    lemma_byte_len_ascii(decimal_of(n));
}

proof fn lemma_json_texts_bytes(texts: Seq<Seq<char>>, n: nat)
    requires
        n <= texts.len(),
    ensures
        byte_len(json_texts(texts, n)) <= 6 * total_bytes(texts, n) + 3 * n + 1,
    decreases n,
{
    reveal_strlit("[");
    reveal_strlit(",");
    reveal_strlit("");
    if n == 0 {
        lemma_byte_len_ascii("["@);
    } else {
        lemma_json_texts_bytes(texts, (n - 1) as nat);
        let head = json_texts(texts, (n - 1) as nat);
        let comma = if n == 1 {
            ""@
        } else {
            ","@
        };
        lemma_byte_len_ascii(comma);
        lemma_byte_len_concat(head, comma);
        lemma_byte_len_concat(head + comma, json_string_of(texts[n - 1]));
        lemma_json_string_bytes(texts[n - 1]);
    }
}

/// How long a token can get: this much for the parts that every token has, and at most twelve
/// characters for each byte of the name of the traversal and of the position.
pub proof fn lemma_token_length(collection: Seq<char>, revision: u64, after: Seq<Seq<char>>)
    ensures
        cursor_token(collection, revision, after).len() <= 144 + 12 * byte_len(collection) + 12
            * total_bytes(after, after.len()) + 6 * after.len(),
{
    let p0 = "{\"version\":1,\"collection\":"@;
    let p1 = json_string_of(collection);
    let p2 = ",\"revision\":"@;
    let p3 = decimal_of(revision as nat);
    let p4 = ",\"after\":"@;
    let p5 = json_texts(after, after.len());
    let p6 = "]}"@;
    reveal_strlit("{\"version\":1,\"collection\":");
    reveal_strlit(",\"revision\":");
    reveal_strlit(",\"after\":");
    reveal_strlit("]}");
    lemma_byte_len_ascii(p0);
    lemma_byte_len_ascii(p2);
    lemma_byte_len_ascii(p4);
    lemma_byte_len_ascii(p6);
    lemma_json_string_bytes(collection);
    lemma_json_texts_bytes(after, after.len());
    assert(revision < ten_to(20)) by {
        reveal_with_fuel(ten_to, 21);
    }
    lemma_decimal_bytes(revision as nat, 20);
    lemma_byte_len_concat(p0, p1);
    lemma_byte_len_concat(p0 + p1, p2);
    lemma_byte_len_concat(p0 + p1 + p2, p3);
    lemma_byte_len_concat(p0 + p1 + p2 + p3, p4);
    lemma_byte_len_concat(p0 + p1 + p2 + p3 + p4, p5);
    lemma_byte_len_concat(p0 + p1 + p2 + p3 + p4 + p5, p6);
}

/// A 64-bit number has at most twenty digits.
pub proof fn lemma_decimal_text(n: u64)
    ensures
        byte_len(decimal_of(n as nat)) <= 20,
{
    assert(n < ten_to(20)) by {
        reveal_with_fuel(ten_to, 21);
    }
    lemma_decimal_bytes(n as nat, 20);
}

/// A token is read for a traversal only as a payload of the first version that names this very
/// traversal; one that names another is a conflict, as is one that cannot be read.
pub proof fn law_cursors_belong_to_their_traversal(token: Seq<char>, collection: Seq<char>, other: Seq<char>)
    ensures
        match cursor_read(token, collection) {
            Ok(payload) => payload.version == 1 && payload.collection == collection,
            Err(e) => e is Conflict,
        },
        other != collection && cursor_read(token, collection) is Ok ==> cursor_read(token, other)
            is Err,
        encode_utf8(token).len() == 0 || encode_utf8(token).len() > 8_192 ==> cursor_read(
            token,
            collection,
        ) is Err,
{
}

/// Each part of a payload must be there once: where a name is missing or stands twice, nothing is
/// read; members of other names do not matter.
pub proof fn law_parts_come_once(members: Seq<JsonMemberView>, more: JsonMemberView)
    ensures
        ({
            let part = more.name == "version"@ || more.name == "collection"@ || more.name
                == "revision"@ || more.name == "after"@;
            &&& !part ==> object_read(members.push(more)) == object_read(members)
            &&& part && object_read(members) is Some ==> object_read(members.push(more)) is None
            &&& object_read(Seq::empty()) is None
        }),
{
    lemma_sole_push(members, more, "version"@);
    lemma_sole_push(members, more, "collection"@);
    lemma_sole_push(members, more, "revision"@);
    lemma_sole_push(members, more, "after"@);
    assert(sole(Seq::empty(), "version"@) is None) by {
        reveal(Seq::filter);
    }
}

proof fn lemma_sole_push(members: Seq<JsonMemberView>, more: JsonMemberView, name: Seq<char>)
    ensures
        more.name != name ==> sole(members.push(more), name) == sole(members, name),
        more.name == name && sole(members, name) is Some ==> sole(members.push(more), name) is None,
{
    members.lemma_filter_push(more, |m: JsonMemberView| m.name == name);
}

} // verus!
