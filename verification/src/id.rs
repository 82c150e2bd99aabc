//! Permanent Node identity.
use vstd::prelude::*;
use crate::error::{CoreError, ErrorView};
use crate::table::TableKey;
use crate::text::{decimal, decimal_of, hex_of, join2};

verus! {

/// Permanent Genesis Node identity: the sixteen bytes of a non-nil UUIDv7.
///
/// The bytes remain private so callers cannot bypass the UUIDv7 and nil checks.
#[derive(Debug, Clone, Copy, Eq, Hash, PartialOrd, Ord)]
pub struct NodeId {
    bytes: [u8; 16],
}

/// The version number that the bytes of a UUID carry.
pub open spec fn uuid_version(bytes: Seq<u8>) -> int {
    bytes[6] as int / 16
}

/// Whether all the bytes are zero.
pub open spec fn uuid_is_nil(bytes: Seq<u8>) -> bool {
    forall|i: int| 0 <= i < bytes.len() ==> #[trigger] bytes[i] == 0
}

/// A UUID in lower-case hexadecimal groups of 8, 4, 4, 4 and 12 digits, with hyphens between.
pub open spec fn hyphenated(bytes: Seq<u8>) -> Seq<char> {
    hex_of(bytes.subrange(0, 4)) + seq!['-'] + hex_of(bytes.subrange(4, 6)) + seq!['-'] + hex_of(
        bytes.subrange(6, 8),
    ) + seq!['-'] + hex_of(bytes.subrange(8, 10)) + seq!['-'] + hex_of(bytes.subrange(10, 16))
}

/// What `Uuid::parse_str` reads in a text: the sixteen bytes, or the words of its error.
pub uninterp spec fn uuid_parse(text: Seq<char>) -> Result<Seq<u8>, Seq<char>>;

/// `uuid::Uuid::now_v7`: sixteen bytes that carry the version number 7. Which ones rests on the
/// clock and on chance; that they are new to the caller is not said here. The call panics where the
/// clock stands before 1970 or the system gives no random bytes, which no caller can rule out.
#[verifier::external_body]
fn fresh_uuid() -> (r: [u8; 16])
    ensures
        uuid_version(r@) == 7,
{
    uuid::Uuid::now_v7().into_bytes()
}

/// `uuid::Uuid::hyphenated`, written out: the lower-case hyphenated notation of the bytes.
#[verifier::external_body]
fn uuid_text(bytes: [u8; 16]) -> (r: String)
    ensures
        r@ == hyphenated(bytes@),
{
    uuid::Uuid::from_bytes(bytes).hyphenated().to_string()
}

/// `uuid::Uuid::parse_str`: what it reads depends on the text alone, and in the hyphenated
/// notation of sixteen bytes it reads those bytes.
#[verifier::external_body]
fn parse_uuid(text: &str) -> (r: Result<[u8; 16], String>)
    ensures
        match r {
            Ok(bytes) => uuid_parse(text@) == Ok::<Seq<u8>, Seq<char>>(bytes@),
            Err(words) => uuid_parse(text@) == Err::<Seq<u8>, Seq<char>>(words@),
        },
        forall|bytes: [u8; 16]|
            #![trigger hyphenated(bytes@)]
            text@ == hyphenated(bytes@) ==> r is Ok && r->Ok_0 == bytes,
{
    match uuid::Uuid::parse_str(text) {
        Ok(value) => Ok(value.into_bytes()),
        Err(error) => Err(error.to_string()),
    }
}

/// Lexicographic order of byte strings.
pub open spec fn bytes_before(a: Seq<u8>, b: Seq<u8>) -> bool
    decreases a.len(),
{
    if b.len() == 0 {
        false
    } else if a.len() == 0 {
        true
    } else if a[0] != b[0] {
        a[0] < b[0]
    } else {
        bytes_before(a.drop_first(), b.drop_first())
    }
}

proof fn lemma_bytes_before_irreflexive(a: Seq<u8>)
    ensures
        !bytes_before(a, a),
    decreases a.len(),
{
    if a.len() > 0 {
        lemma_bytes_before_irreflexive(a.drop_first());
    }
}

proof fn lemma_bytes_before_transitive(a: Seq<u8>, b: Seq<u8>, c: Seq<u8>)
    requires
        bytes_before(a, b),
        bytes_before(b, c),
    ensures
        bytes_before(a, c),
    decreases a.len(),
{
    if a.len() > 0 && a[0] == b[0] && b[0] == c[0] {
        lemma_bytes_before_transitive(a.drop_first(), b.drop_first(), c.drop_first());
    }
}

proof fn lemma_bytes_before_total(a: Seq<u8>, b: Seq<u8>)
    ensures
        a == b || bytes_before(a, b) || bytes_before(b, a),
    decreases a.len(),
{
    if a.len() == 0 || b.len() == 0 {
        if a.len() == b.len() {
            assert(a =~= b);
        }
    } else if a[0] == b[0] {
        lemma_bytes_before_total(a.drop_first(), b.drop_first());
        if a.drop_first() == b.drop_first() {
            assert(a =~= seq![a[0]] + a.drop_first());
            assert(b =~= seq![b[0]] + b.drop_first());
        }
    }
}

/// Why sixteen bytes are no Node ID.
pub open spec fn id_fault(bytes: Seq<u8>) -> Option<ErrorView> {
    if uuid_is_nil(bytes) {
        Some(ErrorView::InvalidNodeId("nil UUID is not allowed"@))
    } else if uuid_version(bytes) != 7 {
        Some(
            ErrorView::InvalidNodeId(
                "expected UUIDv7, received UUIDv"@ + decimal_of(uuid_version(bytes) as nat),
            ),
        )
    } else {
        None
    }
}

/// What a text says of a Node ID: the ID in it, or why there is none.
pub open spec fn id_read(text: Seq<char>) -> Result<Seq<u8>, ErrorView> {
    match uuid_parse(text) {
        Err(words) => Err(ErrorView::InvalidNodeId(words)),
        Ok(bytes) => match id_fault(bytes) {
            Some(fault) => Err(fault),
            None => Ok(bytes),
        },
    }
}

/// The ID with these bytes.
pub open spec fn id_of(bytes: Seq<u8>) -> NodeId {
    choose|id: NodeId| id.spec_bytes() == bytes
}

impl NodeId {
    /// The bytes of the ID.
    pub closed spec fn spec_bytes(self) -> Seq<u8> {
        self.bytes@
    }

    /// The invariant of every Node ID: a UUIDv7.
    #[verifier::type_invariant]
    pub closed spec fn valid(self) -> bool {
        uuid_version(self.bytes@) == 7
    }

    /// The text of the ID.
    pub open spec fn text(self) -> Seq<char> {
        hyphenated(self.spec_bytes())
    }

    /// Two IDs with the same bytes are the same ID.
    pub proof fn lemma_bytes_tell_ids_apart(a: NodeId, b: NodeId)
        requires
            a.spec_bytes() == b.spec_bytes(),
        ensures
            a == b,
    {
        assert(a.bytes =~= b.bytes);
    }

    /// The ID with the bytes of an ID is that ID.
    pub proof fn lemma_id_of(id: NodeId)
        ensures
            id_of(id.spec_bytes()) == id,
    {
        NodeId::lemma_bytes_tell_ids_apart(id_of(id.spec_bytes()), id);
    }

    /// The text of an ID has 36 characters, all of them ASCII.
    pub proof fn lemma_text_length(id: NodeId)
        ensures
            id.text().len() == 36,
            vstd::utf8::is_ascii_chars(id.text()),
    {
        let b = id.spec_bytes();
        assert(b.len() == 16);
        assert forall|i: int| 0 <= i < id.text().len() implies '\0' <= #[trigger] id.text()[i]
            <= '\u{7f}' by {}
    }

    /// A new ID.
    pub fn new() -> (r: NodeId)
        ensures
            r.valid(),
            id_fault(r.spec_bytes()) is None,
    {
        let bytes = fresh_uuid();
        proof {
            assert(bytes@[6] != 0);
        }
        NodeId { bytes }
    }

    /// The ID of a UUID, taken as its sixteen bytes.
    pub fn from_uuid(uuid: [u8; 16]) -> (r: Result<NodeId, CoreError>)
        ensures
            match r {
                Ok(id) => id_fault(uuid@) is None && id.valid() && id.spec_bytes() == uuid@,
                Err(e) => id_fault(uuid@) == Some(e@),
            },
    {
        let mut nil = true;
        let mut i: usize = 0;
        while i < 16
            invariant
                i <= 16,
                nil == forall|j: int| 0 <= j < i ==> #[trigger] uuid@[j] == 0,
            decreases 16 - i,
        {
            if uuid[i] != 0 {
                nil = false;
            }
            i = i + 1;
        }
        if nil {
            return Err(CoreError::InvalidNodeId("nil UUID is not allowed".to_owned()));
        }
        let version: u8 = uuid[6] / 16;
        if version != 7 {
            let number = decimal(version as u128);
            return Err(
                CoreError::InvalidNodeId(join2("expected UUIDv7, received UUIDv", number.as_str())),
            );
        }
        Ok(NodeId { bytes: uuid })
    }

    /// The ID of sixteen bytes.
    pub fn from_bytes(bytes: [u8; 16]) -> (r: Result<NodeId, CoreError>)
        ensures
            match r {
                Ok(id) => id_fault(bytes@) is None && id.valid() && id.spec_bytes() == bytes@,
                Err(e) => id_fault(bytes@) == Some(e@),
            },
    {
        NodeId::from_uuid(bytes)
    }

    /// The bytes of the ID.
    pub fn as_bytes(&self) -> (r: &[u8; 16])
        ensures
            r@ == self.spec_bytes(),
            self.valid(),
            id_fault(r@) is None,
    {
        proof {
            use_type_invariant(self);
            assert(self.bytes@[6] != 0);
        }
        &self.bytes
    }

    /// The bytes of the ID.
    pub fn into_bytes(self) -> (r: [u8; 16])
        ensures
            r@ == self.spec_bytes(),
            self.valid(),
            id_fault(r@) is None,
    {
        *self.as_bytes()
    }

    /// The text of the ID: lower case, hyphenated.
    pub fn to_string(&self) -> (r: String)
        ensures
            r@ == self.text(),
            self.valid(),
    {
        proof {
            use_type_invariant(self);
        }
        uuid_text(self.bytes)
    }

    /// Reads the text of an ID. Whatever [`NodeId::to_string`] writes of an ID reads as that ID, and
    /// the same notation of a UUID of any other version is refused.
    pub fn parse(text: &str) -> (r: Result<NodeId, CoreError>)
        ensures
            match r {
                Ok(id) => id.valid() && id_read(text@) == Ok::<Seq<u8>, ErrorView>(id.spec_bytes()),
                Err(e) => id_read(text@) == Err::<Seq<u8>, ErrorView>(e@),
            },
            forall|id: NodeId|
                #![trigger id.text()]
                id.valid() && text@ == id.text() ==> r is Ok && r->Ok_0 == id,
            forall|bytes: [u8; 16]|
                #![trigger hyphenated(bytes@)]
                text@ == hyphenated(bytes@) ==> (r is Ok <==> uuid_version(bytes@) == 7),
    {
        let read = parse_uuid(text);
        proof {
            assert forall|id: NodeId|
                #![trigger id.text()]
                id.valid() && text@ == id.text() implies read is Ok && read->Ok_0 == id.bytes
                && id_fault(id.bytes@) is None by {
                assert(hyphenated(id.bytes@) == id.text());
                assert(id.bytes@[6] != 0);
            }
        }
        match read {
            Err(words) => Err(CoreError::InvalidNodeId(words)),
            Ok(bytes) => {
                let r = NodeId::from_uuid(bytes);
                proof {
                    if r is Ok {
                        assert(r->Ok_0.bytes =~= bytes);
                    }
                }
                r
            },
        }
    }

    /// Whether two IDs are the same.
    pub fn same(&self, other: &NodeId) -> (r: bool)
        ensures
            r == (*self == *other),
    {
        let mut i: usize = 0;
        while i < 16
            invariant
                i <= 16,
                forall|j: int| 0 <= j < i ==> self.bytes@[j] == other.bytes@[j],
            decreases 16 - i,
        {
            if self.bytes[i] != other.bytes[i] {
                return false;
            }
            i = i + 1;
        }
        proof {
            assert(self.bytes =~= other.bytes);
        }
        true
    }
}

impl PartialEq for NodeId {
    fn eq(&self, other: &NodeId) -> (r: bool) {
        self.same(other)
    }
}

impl vstd::std_specs::cmp::PartialEqSpecImpl for NodeId {
    open spec fn obeys_eq_spec() -> bool {
        true
    }

    open spec fn eq_spec(&self, other: &NodeId) -> bool {
        *self == *other
    }
}

impl std::str::FromStr for NodeId {
    type Err = CoreError;

    /// Reads the text of an ID, as [`NodeId::parse`] does.
    fn from_str(value: &str) -> (r: Result<NodeId, CoreError>)
        ensures
            match r {
                Ok(id) => id.valid() && id_read(value@) == Ok::<Seq<u8>, ErrorView>(
                    id.spec_bytes(),
                ),
                Err(e) => id_read(value@) == Err::<Seq<u8>, ErrorView>(e@),
            },
            forall|id: NodeId|
                #![trigger id.text()]
                id.valid() && value@ == id.text() ==> r is Ok && r->Ok_0 == id,
            forall|bytes: [u8; 16]|
                #![trigger hyphenated(bytes@)]
                value@ == hyphenated(bytes@) ==> (r is Ok <==> uuid_version(bytes@) == 7),
    {
        NodeId::parse(value)
    }
}

impl Default for NodeId {
    /// A new ID.
    fn default() -> (r: NodeId)
        ensures
            r.valid(),
    {
        NodeId::new()
    }
}

impl View for NodeId {
    type V = NodeId;

    open spec fn view(&self) -> NodeId {
        *self
    }
}

impl TableKey for NodeId {
    open spec fn before(a: NodeId, b: NodeId) -> bool {
        bytes_before(a.spec_bytes(), b.spec_bytes())
    }

    proof fn before_irreflexive(a: NodeId) {
        lemma_bytes_before_irreflexive(a.spec_bytes());
    }

    proof fn before_transitive(a: NodeId, b: NodeId, c: NodeId) {
        lemma_bytes_before_transitive(a.spec_bytes(), b.spec_bytes(), c.spec_bytes());
    }

    proof fn before_total(a: NodeId, b: NodeId) {
        lemma_bytes_before_total(a.spec_bytes(), b.spec_bytes());
        if a.spec_bytes() == b.spec_bytes() {
            NodeId::lemma_bytes_tell_ids_apart(a, b);
        }
    }

    fn is_before(&self, other: &NodeId) -> (r: bool) {
        let mut i: usize = 0;
        proof {
            assert(self.bytes@.subrange(0, 16) =~= self.bytes@);
            assert(other.bytes@.subrange(0, 16) =~= other.bytes@);
        }
        while i < 16
            invariant
                i <= 16,
                self.bytes@.len() == 16,
                other.bytes@.len() == 16,
                bytes_before(self.bytes@, other.bytes@) == bytes_before(
                    self.bytes@.subrange(i as int, 16),
                    other.bytes@.subrange(i as int, 16),
                ),
            decreases 16 - i,
        {
            let ghost a = self.bytes@.subrange(i as int, 16);
            let ghost b = other.bytes@.subrange(i as int, 16);
            if self.bytes[i] != other.bytes[i] {
                proof {
                    assert(a[0] == self.bytes@[i as int] && b[0] == other.bytes@[i as int]);
                }
                return self.bytes[i] < other.bytes[i];
            }
            proof {
                assert(a.drop_first() =~= self.bytes@.subrange(i + 1, 16));
                assert(b.drop_first() =~= other.bytes@.subrange(i + 1, 16));
            }
            i = i + 1;
        }
        false
    }

    fn copy_key(&self) -> (r: NodeId) {
        *self
    }
}

} // verus!
