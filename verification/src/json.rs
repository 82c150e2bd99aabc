//! JSON objects: their members, each with its name and the bytes of its value.
use vstd::prelude::*;
use vstd::slice::slice_subrange;
use vstd::utf8::encode_utf8;
use crate::text::decimal_of;
use crate::value::json_string_of;

verus! {

/// An opening bracket, then the first `n` texts in JSON, with commas between.
pub open spec fn json_texts(texts: Seq<Seq<char>>, n: nat) -> Seq<char>
    decreases n,
{
    if n == 0 || n > texts.len() {
        "["@
    } else {
        json_texts(texts, (n - 1) as nat) + (if n == 1 {
            ""@
        } else {
            ","@
        }) + json_string_of(texts[n - 1])
    }
}

/// A value that is written in JSON: a number, a text, or some texts.
pub enum Written {
    Number(u64),
    Text(Seq<char>),
    Texts(Seq<Seq<char>>),
}

/// How JSON writes a value.
pub open spec fn written_json(value: Written) -> Seq<char> {
    match value {
        Written::Number(n) => decimal_of(n as nat),
        Written::Text(text) => json_string_of(text),
        Written::Texts(texts) => json_texts(texts, texts.len()) + "]"@,
    }
}

/// The bytes of a text, and further bytes behind it.
pub open spec fn followed_by(text: Seq<char>, rest: Seq<u8>) -> Seq<u8> {
    encode_utf8(text) + rest
}

/// Whether bytes begin with what ends a value within an object: a comma or a closing brace.
pub open spec fn ends_value(rest: Seq<u8>) -> bool {
    rest.len() > 0 && (rest[0] == 0x2c || rest[0] == 0x7d)
}

/// What serde_json reads at the beginning of some bytes as a text: its characters, and where it
/// ends.
pub uninterp spec fn text_read(bytes: Seq<u8>) -> Option<(Seq<char>, nat)>;

/// Where a JSON value ends that serde_json skips at the beginning of some bytes.
pub uninterp spec fn value_end(bytes: Seq<u8>) -> Option<nat>;

/// `serde_json::StreamDeserializer` for a `String`: its first item, and `byte_offset` after it. Both
/// depend on the bytes alone. What was written of a text at the beginning of the bytes reads as that
/// text, and ends where it ends.
#[verifier::external_body]
fn read_text(bytes: &[u8]) -> (r: Option<(String, usize)>)
    ensures
        match r {
            Some((text, end)) => end <= bytes@.len() && text_read(bytes@) == Some(
                (text@, end as nat),
            ),
            None => text_read(bytes@) is None,
        },
        forall|written: Seq<char>, rest: Seq<u8>|
            bytes@ == #[trigger] followed_by(json_string_of(written), rest) ==> match r {
                Some((text, end)) => text@ == written && end == encode_utf8(
                    json_string_of(written),
                ).len(),
                None => false,
            },
{
    let mut stream = serde_json::Deserializer::from_slice(bytes).into_iter::<String>();
    let text = stream.next()?.ok()?;
    Some((text, stream.byte_offset()))
}

/// `serde_json::StreamDeserializer` for a `serde::de::IgnoredAny`: `byte_offset` after its first
/// item, which depends on the bytes alone. What was written of a value at the beginning of the bytes
/// ends where it ends, if a comma or a closing brace comes next.
#[verifier::external_body]
fn skip_value(bytes: &[u8]) -> (r: Option<usize>)
    ensures
        match r {
            Some(end) => end <= bytes@.len() && value_end(bytes@) == Some(end as nat),
            None => value_end(bytes@) is None,
        },
        forall|written: Written, rest: Seq<u8>|
            bytes@ == #[trigger] followed_by(written_json(written), rest) && ends_value(rest)
                ==> r is Some && r->0 == encode_utf8(written_json(written)).len(),
{
    let mut stream = serde_json::Deserializer::from_slice(bytes)
        .into_iter::<serde::de::IgnoredAny>();
    stream.next()?.ok()?;
    Some(stream.byte_offset())
}

/// Whether a byte is white space in JSON.
pub open spec fn is_space(byte: u8) -> bool {
    byte == 0x20 || byte == 0x0a || byte == 0x09 || byte == 0x0d
}

/// Some bytes without the white space at their beginning.
pub open spec fn after_spaces(bytes: Seq<u8>) -> Seq<u8>
    decreases bytes.len(),
{
    if bytes.len() > 0 && is_space(bytes[0]) {
        after_spaces(bytes.skip(1))
    } else {
        bytes
    }
}

/// A member of an object: its name, and the bytes of its value.
#[derive(Debug)]
pub struct JsonMember<'a> {
    pub name: String,
    pub value: &'a [u8],
}

pub struct JsonMemberView {
    pub name: Seq<char>,
    pub value: Seq<u8>,
}

impl View for JsonMember<'_> {
    type V = JsonMemberView;

    open spec fn view(&self) -> JsonMemberView {
        JsonMemberView { name: self.name@, value: self.value@ }
    }
}

/// The views of some members.
pub open spec fn members_view(members: Seq<JsonMember>) -> Seq<JsonMemberView> {
    Seq::new(members.len(), |i: int| members[i]@)
}

/// The member that some bytes begin with, and the bytes behind it: a text, a colon, a value.
pub open spec fn member_read(bytes: Seq<u8>) -> Option<(JsonMemberView, Seq<u8>)> {
    if bytes.len() == 0 || bytes[0] != 0x22 {
        None
    } else {
        match text_read(bytes) {
            None => None,
            Some((name, end)) => {
                let colon = after_spaces(bytes.skip(end as int));
                if end > bytes.len() || colon.len() == 0 || colon[0] != 0x3a {
                    None
                } else {
                    let value = colon.skip(1);
                    match value_end(value) {
                        None => None,
                        Some(end) => if end > value.len() {
                            None
                        } else {
                            Some(
                                (
                                    JsonMemberView { name, value: value.take(end as int) },
                                    value.skip(end as int),
                                ),
                            )
                        },
                    }
                }
            },
        }
    }
}

/// The members of an object of which some bytes are what is left, with nothing but white space
/// behind its closing brace. A comma stands before every member but the first.
pub open spec fn members_read(bytes: Seq<u8>, first: bool) -> Option<Seq<JsonMemberView>>
    decreases bytes.len(),
{
    let next = after_spaces(bytes);
    if next.len() == 0 {
        None
    } else if next[0] == 0x7d {
        if after_spaces(next.skip(1)).len() == 0 {
            Some(Seq::empty())
        } else {
            None
        }
    } else if !first && next[0] != 0x2c {
        None
    } else {
        let member = if first {
            next
        } else {
            after_spaces(next.skip(1))
        };
        match member_read(member) {
            None => None,
            Some((m, rest)) => if rest.len() < bytes.len() {
                match members_read(rest, false) {
                    None => None,
                    Some(more) => Some(seq![m] + more),
                }
            } else {
                None
            },
        }
    }
}

/// A member that is written.
pub struct WrittenMember {
    pub name: Seq<char>,
    pub value: Written,
}

/// How JSON writes a member.
pub open spec fn member_text(m: WrittenMember) -> Seq<char> {
    json_string_of(m.name) + ":"@ + written_json(m.value)
}

/// How JSON writes what is left of an object after its first `n` members.
pub open spec fn object_rest(members: Seq<WrittenMember>, n: nat) -> Seq<char>
    decreases members.len() - n,
{
    if n >= members.len() {
        "}"@
    } else {
        (if n == 0 {
            ""@
        } else {
            ","@
        }) + member_text(members[n as int]) + object_rest(members, n + 1)
    }
}

/// The members that are read of an object that is written.
pub open spec fn members_written(members: Seq<WrittenMember>) -> Seq<JsonMemberView> {
    Seq::new(
        members.len(),
        |i: int|
            JsonMemberView {
                name: members[i].name,
                value: encode_utf8(written_json(members[i].value)),
            },
    )
}

/// The bytes of two texts, one behind the other, are those of both.
pub proof fn lemma_utf8_concat(a: Seq<char>, b: Seq<char>)
    ensures
        encode_utf8(a + b) == encode_utf8(a) + encode_utf8(b),
    decreases a.len(),
{
    if a.len() == 0 {
        assert(a + b =~= b);
        assert(encode_utf8(a) =~= Seq::<u8>::empty());
        assert(encode_utf8(a) + encode_utf8(b) =~= encode_utf8(b));
    } else {
        lemma_utf8_concat(a.drop_first(), b);
        assert((a + b).drop_first() =~= a.drop_first() + b);
        assert(encode_utf8(a + b) =~= encode_utf8(a) + encode_utf8(b));
    }
}

/// The byte of an ASCII character.
pub proof fn lemma_utf8_one(c: char)
    requires
        c as u32 <= 0x7f,
    ensures
        encode_utf8(seq![c]) == seq![c as u8],
{
    let s = seq![c];
    assert(vstd::utf8::is_ascii_chars(s));
    vstd::utf8::is_ascii_chars_encode_utf8(s);
    assert(encode_utf8(s) =~= seq![c as u8]);
}

proof fn lemma_after_spaces(bytes: Seq<u8>)
    ensures
        after_spaces(bytes).len() <= bytes.len(),
    decreases bytes.len(),
{
    if bytes.len() > 0 && is_space(bytes[0]) {
        lemma_after_spaces(bytes.skip(1));
    }
}

/// Skips white space.
pub(crate) fn skip_spaces<'a>(bytes: &'a [u8]) -> (r: &'a [u8])
    ensures
        r@ == after_spaces(bytes@),
        r@.len() <= bytes@.len(),
{
    let mut i: usize = 0;
    proof {
        assert(bytes@.skip(0) =~= bytes@);
    }
    while i < bytes.len() && (bytes[i] == 0x20 || bytes[i] == 0x0a || bytes[i] == 0x09 || bytes[i]
        == 0x0d)
        invariant
            i <= bytes@.len(),
            after_spaces(bytes@.skip(i as int)) == after_spaces(bytes@),
        decreases bytes@.len() - i,
    {
        proof {
            let s = bytes@.skip(i as int);
            assert(s[0] == bytes@[i as int]);
            assert(s.skip(1) =~= bytes@.skip(i + 1));
        }
        i = i + 1;
    }
    proof {
        let s = bytes@.skip(i as int);
        if s.len() > 0 {
            assert(s[0] == bytes@[i as int]);
        }
        assert(s =~= bytes@.subrange(i as int, bytes@.len() as int));
    }
    slice_subrange(bytes, i, bytes.len())
}

/// The bytes from a place on.
pub(crate) fn from_place<'a>(bytes: &'a [u8], i: usize) -> (r: &'a [u8])
    requires
        i <= bytes@.len(),
    ensures
        r@ == bytes@.skip(i as int),
{
    proof {
        assert(bytes@.skip(i as int) =~= bytes@.subrange(i as int, bytes@.len() as int));
    }
    slice_subrange(bytes, i, bytes.len())
}

/// Where the parts of a written member stand in its bytes.
proof fn lemma_member_bytes(m: WrittenMember, rest: Seq<u8>)
    ensures
        ({
            let name = json_string_of(m.name);
            let value = written_json(m.value);
            let behind = seq![0x3au8] + encode_utf8(value) + rest;
            let bytes = followed_by(member_text(m), rest);
            &&& bytes == followed_by(name, behind)
            &&& bytes.len() > 0
            &&& bytes[0] == 0x22
            &&& bytes.skip(encode_utf8(name).len() as int) == behind
            &&& after_spaces(behind) == behind
            &&& behind[0] == 0x3a
            &&& behind.skip(1) == followed_by(value, rest)
            &&& followed_by(value, rest).take(encode_utf8(value).len() as int) == encode_utf8(value)
            &&& followed_by(value, rest).skip(encode_utf8(value).len() as int) == rest
        }),
{
    let name = json_string_of(m.name);
    let value = written_json(m.value);
    let behind = seq![0x3au8] + encode_utf8(value) + rest;
    reveal_strlit(":");
    assert(":"@ =~= seq![':']);
    lemma_utf8_one(':');
    lemma_utf8_concat(name + ":"@, value);
    lemma_utf8_concat(name, ":"@);
    let bytes = followed_by(member_text(m), rest);
    assert(bytes =~= followed_by(name, behind));
    assert(name =~= seq!['"'] + name.skip(1));
    lemma_utf8_concat(seq!['"'], name.skip(1));
    lemma_utf8_one('"');
    assert(encode_utf8(name)[0] == 0x22);
    assert(bytes.skip(encode_utf8(name).len() as int) =~= behind);
    assert(behind.skip(1) =~= followed_by(value, rest));
    assert(followed_by(value, rest).take(encode_utf8(value).len() as int) =~= encode_utf8(value));
    assert(followed_by(value, rest).skip(encode_utf8(value).len() as int) =~= rest);
}

/// Reads the member that some bytes begin with.
fn read_one<'a>(bytes: &'a [u8]) -> (r: Option<(JsonMember<'a>, &'a [u8])>)
    ensures
        match r {
            Some((m, rest)) => member_read(bytes@) == Some((m@, rest@)) && rest@.len()
                < bytes@.len(),
            None => member_read(bytes@) is None,
        },
        forall|m: WrittenMember, rest: Seq<u8>|
            bytes@ == #[trigger] followed_by(member_text(m), rest) && ends_value(rest) ==> match r {
                Some((found, left)) => found@ == (JsonMemberView {
                    name: m.name,
                    value: encode_utf8(written_json(m.value)),
                }) && left@ == rest,
                None => false,
            },
{
    proof {
        assert forall|m: WrittenMember, rest: Seq<u8>|
            bytes@ == #[trigger] followed_by(member_text(m), rest) implies bytes@.len() > 0
            && bytes@[0] == 0x22 by {
            lemma_member_bytes(m, rest);
        }
    }
    if bytes.len() == 0 || bytes[0] != 0x22 {
        return None;
    }
    let read = read_text(bytes);
    proof {
        assert forall|m: WrittenMember, rest: Seq<u8>|
            bytes@ == #[trigger] followed_by(member_text(m), rest) implies match read {
            Some((text, end)) => text@ == m.name && after_spaces(bytes@.skip(end as int))
                == seq![0x3au8] + encode_utf8(written_json(m.value)) + rest,
            None => false,
        } by {
            lemma_member_bytes(m, rest);
        }
    }
    match read {
        None => None,
        Some((name, end)) => {
            let colon = skip_spaces(from_place(bytes, end));
            proof {
                lemma_after_spaces(bytes@.skip(end as int));
            }
            if colon.len() == 0 || colon[0] != 0x3a {
                proof {
                    assert forall|m: WrittenMember, rest: Seq<u8>| bytes@ != #[trigger] followed_by(
                        member_text(m),
                        rest,
                    ) by {
                        if bytes@ == followed_by(member_text(m), rest) {
                            lemma_member_bytes(m, rest);
                        }
                    }
                }
                return None;
            }
            let value = from_place(colon, 1);
            let skipped = skip_value(value);
            proof {
                assert forall|m: WrittenMember, rest: Seq<u8>|
                    bytes@ == #[trigger] followed_by(member_text(m), rest) && ends_value(
                        rest,
                    ) implies skipped is Some && value@.take(skipped->0 as int) == encode_utf8(
                    written_json(m.value),
                ) && value@.skip(skipped->0 as int) == rest by {
                    lemma_member_bytes(m, rest);
                    assert(value@ == followed_by(written_json(m.value), rest));
                }
            }
            match skipped {
                None => None,
                Some(end) => {
                    let m = JsonMember { name, value: slice_subrange(value, 0, end) };
                    proof {
                        assert(value@.take(end as int) =~= value@.subrange(0, end as int));
                    }
                    Some((m, from_place(value, end)))
                },
            }
        },
    }
}

/// Where the next member of a written object, or its end, stands in its bytes.
proof fn lemma_rest_bytes(members: Seq<WrittenMember>, n: nat)
    requires
        n <= members.len(),
    ensures
        ({
            let bytes = encode_utf8(object_rest(members, n));
            if n == members.len() {
                bytes == seq![0x7du8]
            } else {
                let rest = encode_utf8(object_rest(members, n + 1));
                let member = followed_by(member_text(members[n as int]), rest);
                &&& ends_value(rest)
                &&& member.len() > 0
                &&& member[0] == 0x22
                &&& bytes == if n == 0 {
                    member
                } else {
                    seq![0x2cu8] + member
                }
            }
        }),
    decreases members.len() - n,
{
    reveal_strlit("}");
    reveal_strlit("");
    reveal_strlit(",");
    if n == members.len() {
        assert("}"@ =~= seq!['}']);
        lemma_utf8_one('}');
    } else {
        let rest = encode_utf8(object_rest(members, n + 1));
        lemma_rest_bytes(members, n + 1);
        let text = member_text(members[n as int]);
        lemma_member_bytes(members[n as int], rest);
        if n == 0 {
            assert(""@ + text =~= text);
            lemma_utf8_concat(text, object_rest(members, n + 1));
        } else {
            assert(","@ =~= seq![',']);
            lemma_utf8_one(',');
            lemma_utf8_concat(","@ + text, object_rest(members, n + 1));
            lemma_utf8_concat(","@, text);
            assert(encode_utf8(object_rest(members, n)) =~= seq![0x2cu8] + followed_by(text, rest));
        }
    }
}

/// Members, and more of them behind those.
spec fn with_more(found: Seq<JsonMemberView>, more: Option<Seq<JsonMemberView>>) -> Option<
    Seq<JsonMemberView>,
> {
    match more {
        None => None,
        Some(more) => Some(found + more),
    }
}

/// Reads the members of an object from behind its opening brace. Those of an object that was written
/// are read as they were written.
pub fn read_object<'a>(bytes: &'a [u8]) -> (r: Option<Vec<JsonMember<'a>>>)
    ensures
        match r {
            Some(found) => members_read(bytes@, true) == Some(members_view(found@)),
            None => members_read(bytes@, true) is None,
        },
        forall|members: Seq<WrittenMember>|
            bytes@ == encode_utf8(#[trigger] object_rest(members, 0)) ==> r is Some
                && members_view(r->0@) == members_written(members),
{
    let mut found: Vec<JsonMember<'a>> = Vec::new();
    let mut rest: &'a [u8] = bytes;
    proof {
        assert(members_view(found@) =~= Seq::empty());
        let all = members_read(bytes@, true);
        if all is Some {
            assert(members_view(found@) + all->0 =~= all->0);
        }
    }
    loop
        invariant
            members_read(bytes@, true) == with_more(
                members_view(found@),
                members_read(rest@, found@.len() == 0),
            ),
            forall|members: Seq<WrittenMember>|
                bytes@ == encode_utf8(#[trigger] object_rest(members, 0)) ==> found@.len()
                    <= members.len() && rest@ == encode_utf8(object_rest(members, found@.len()))
                    && members_view(found@) == members_written(members).take(found@.len() as int),
        decreases rest@.len(),
    {
        let ghost n = found@.len();
        let ghost first = n == 0;
        let next = skip_spaces(rest);
        proof {
            assert forall|members: Seq<WrittenMember>|
                bytes@ == encode_utf8(#[trigger] object_rest(members, 0)) implies next@ == rest@
                && next@.len() > 0 && (if n == members.len() {
                next@ == seq![0x7du8]
            } else {
                let behind = encode_utf8(object_rest(members, n + 1));
                let member = followed_by(member_text(members[n as int]), behind);
                ends_value(behind) && member.len() > 0 && member[0] == 0x22 && next@ == (if n == 0 {
                    member
                } else {
                    seq![0x2cu8] + member
                })
            }) by {
                lemma_rest_bytes(members, n);
            }
        }
        if next.len() == 0 {
            return None;
        }
        if next[0] == 0x7d {
            let tail = skip_spaces(from_place(next, 1));
            proof {
                assert forall|members: Seq<WrittenMember>|
                    bytes@ == encode_utf8(#[trigger] object_rest(members, 0)) implies tail@.len()
                    == 0 && members_view(found@) == members_written(members) by {
                    lemma_rest_bytes(members, n);
                    assert(n == members.len());
                    assert(next@.skip(1) =~= Seq::<u8>::empty());
                    assert(members_written(members).take(n as int) =~= members_written(members));
                }
                assert(members_view(found@) + Seq::empty() =~= members_view(found@));
            }
            if tail.len() == 0 {
                return Some(found);
            }
            return None;
        }
        let at: &'a [u8] = if found.len() == 0 {
            next
        } else if next[0] == 0x2c {
            skip_spaces(from_place(next, 1))
        } else {
            return None;
        };
        proof {
            lemma_after_spaces(next@.skip(1));
            assert forall|members: Seq<WrittenMember>|
                bytes@ == encode_utf8(#[trigger] object_rest(members, 0)) implies n < members.len()
                && at@ == followed_by(
                member_text(members[n as int]),
                encode_utf8(object_rest(members, n + 1)),
            ) by {
                let behind = encode_utf8(object_rest(members, n + 1));
                if n < members.len() && n > 0 {
                    let member = followed_by(member_text(members[n as int]), behind);
                    assert(next@.skip(1) =~= member);
                }
            }
        }
        match read_one(at) {
            None => {
                return None;
            },
            Some((m, left)) => {
                let ghost before = members_view(found@);
                let ghost old_rest = rest@;
                found.push(m);
                rest = left;
                proof {
                    assert(members_view(found@) =~= before.push(m@));
                    let more = members_read(rest@, false);
                    assert(members_read(old_rest, first) == (match more {
                        None => None,
                        Some(more) => Some(seq![m@] + more),
                    }));
                    if more is Some {
                        assert(before + (seq![m@] + more->0) =~= before.push(m@) + more->0);
                    }
                    assert forall|members: Seq<WrittenMember>|
                        bytes@ == encode_utf8(#[trigger] object_rest(members, 0)) implies n + 1
                        <= members.len() && rest@ == encode_utf8(object_rest(members, n + 1))
                        && members_view(found@) == members_written(members).take((n + 1) as int) by {
                        assert(members_written(members).take((n + 1) as int) =~= members_written(
                            members,
                        ).take(n as int).push(members_written(members)[n as int]));
                    }
                }
            },
        }
    }
}

/// White space in front does not count: blanks, tabs, line feeds and carriage returns, and nothing
/// else.
pub proof fn law_spaces_do_not_count(byte: u8, rest: Seq<u8>)
    ensures
        ({
            let space = byte == 32 || byte == 9 || byte == 10 || byte == 13;
            &&& space ==> after_spaces(seq![byte] + rest) == after_spaces(rest)
            &&& !space ==> after_spaces(seq![byte] + rest) == seq![byte] + rest
            &&& after_spaces(Seq::empty()) == Seq::<u8>::empty()
        }),
{
    let bytes = seq![byte] + rest;
    assert(bytes[0] == byte);
    assert(bytes.skip(1) =~= rest);
}

} // verus!
