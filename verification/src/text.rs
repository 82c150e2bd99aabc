//! Text: order, character classes, decimal and hexadecimal notation.
use vstd::prelude::*;
use crate::table::TableKey;

verus! {

/// Lexicographic order of texts by Unicode code point.
pub open spec fn text_before(a: Seq<char>, b: Seq<char>) -> bool
    decreases a.len(),
{
    if b.len() == 0 {
        false
    } else if a.len() == 0 {
        true
    } else if a[0] != b[0] {
        (a[0] as int) < (b[0] as int)
    } else {
        text_before(a.drop_first(), b.drop_first())
    }
}

pub proof fn lemma_text_before_irreflexive(a: Seq<char>)
    ensures
        !text_before(a, a),
    decreases a.len(),
{
    if a.len() > 0 {
        lemma_text_before_irreflexive(a.drop_first());
    }
}

pub proof fn lemma_text_before_transitive(a: Seq<char>, b: Seq<char>, c: Seq<char>)
    requires
        text_before(a, b),
        text_before(b, c),
    ensures
        text_before(a, c),
    decreases a.len(),
{
    if a.len() > 0 && a[0] == b[0] && b[0] == c[0] {
        lemma_text_before_transitive(a.drop_first(), b.drop_first(), c.drop_first());
    }
}

pub proof fn lemma_text_before_total(a: Seq<char>, b: Seq<char>)
    ensures
        a == b || text_before(a, b) || text_before(b, a),
    decreases a.len(),
{
    if a.len() == 0 || b.len() == 0 {
        if a.len() == b.len() {
            assert(a =~= b);
        }
    } else if a[0] == b[0] {
        lemma_text_before_total(a.drop_first(), b.drop_first());
        if a.drop_first() == b.drop_first() {
            assert(a =~= seq![a[0]] + a.drop_first());
            assert(b =~= seq![b[0]] + b.drop_first());
        }
    } else {
        assert(a[0] as int != b[0] as int);
    }
}

/// Whether one text stands before another.
pub(crate) fn str_before(a: &str, b: &str) -> (r: bool)
    ensures
        r == text_before(a@, b@),
{
    let x = chars_of(a);
    let y = chars_of(b);
    let mut i: usize = 0;
    proof {
        assert(a@.subrange(0, a@.len() as int) =~= a@);
        assert(b@.subrange(0, b@.len() as int) =~= b@);
    }
    while i < x.len() && i < y.len() && x[i] == y[i]
        invariant
            x@ == a@,
            y@ == b@,
            i <= x@.len(),
            i <= y@.len(),
            text_before(a@, b@) == text_before(
                a@.subrange(i as int, a@.len() as int),
                b@.subrange(i as int, b@.len() as int),
            ),
        decreases x@.len() - i,
    {
        proof {
            let s = a@.subrange(i as int, a@.len() as int);
            let t = b@.subrange(i as int, b@.len() as int);
            assert(s.drop_first() =~= a@.subrange(i + 1, a@.len() as int));
            assert(t.drop_first() =~= b@.subrange(i + 1, b@.len() as int));
        }
        i = i + 1;
    }
    if i == y.len() {
        false
    } else if i == x.len() {
        true
    } else {
        x[i] < y[i]
    }
}

impl TableKey for String {
    open spec fn before(a: Seq<char>, b: Seq<char>) -> bool {
        text_before(a, b)
    }

    proof fn before_irreflexive(a: Seq<char>) {
        lemma_text_before_irreflexive(a);
    }

    proof fn before_transitive(a: Seq<char>, b: Seq<char>, c: Seq<char>) {
        lemma_text_before_transitive(a, b, c);
    }

    proof fn before_total(a: Seq<char>, b: Seq<char>) {
        lemma_text_before_total(a, b);
    }

    fn is_before(&self, other: &String) -> (r: bool) {
        str_before(self.as_str(), other.as_str())
    }

    fn copy_key(&self) -> (r: String) {
        self.clone()
    }
}

/// What `char::is_alphanumeric` answers of a character beyond ASCII: the Unicode properties
/// `Alphabetic` and `Numeric`.
pub uninterp spec fn unicode_alphanumeric(c: char) -> bool;

/// Whether a character has the Unicode property `White_Space`.
pub open spec fn char_is_whitespace(c: char) -> bool {
    ||| '\u{9}' <= c <= '\u{d}'
    ||| c == ' '
    ||| c == '\u{85}'
    ||| c == '\u{a0}'
    ||| c == '\u{1680}'
    ||| '\u{2000}' <= c <= '\u{200a}'
    ||| '\u{2028}' <= c <= '\u{2029}'
    ||| c == '\u{202f}'
    ||| c == '\u{205f}'
    ||| c == '\u{3000}'
}

/// Whether a character is a letter or a digit: in ASCII those of the English alphabet and the
/// decimal digits.
pub open spec fn char_is_alphanumeric(c: char) -> bool {
    if c <= '\u{7f}' {
        '0' <= c <= '9' || 'A' <= c <= 'Z' || 'a' <= c <= 'z'
    } else {
        unicode_alphanumeric(c)
    }
}

/// `char::is_whitespace`: whether the character has the Unicode property `White_Space`, which the
/// Unicode Character Database gives to the characters of [`char_is_whitespace`].
pub assume_specification[ char::is_whitespace ](c: char) -> (r: bool)
    ensures
        r == char_is_whitespace(c),
;

/// `char::is_alphanumeric`: in ASCII the letters and the digits; beyond, its answer depends on the
/// character alone.
pub assume_specification[ char::is_alphanumeric ](c: char) -> (r: bool)
    ensures
        r == if c <= '\u{7f}' {
            '0' <= c <= '9' || 'A' <= c <= 'Z' || 'a' <= c <= 'z'
        } else {
            unicode_alphanumeric(c)
        },
;

/// The Unicode general category `Cc`.
pub open spec fn char_is_control(c: char) -> bool {
    (c as u32) <= 0x1f || 0x7f <= (c as u32) <= 0x9f
}

/// `char::is_control`: whether the character is of the general category `Cc`.
pub assume_specification[ char::is_control ](c: char) -> (r: bool)
    ensures
        r == char_is_control(c),
;

/// `String::push`: appends one character.
pub assume_specification[ String::push ](s: &mut String, c: char)
    ensures
        final(s)@ == old(s)@.push(c),
;

/// What `{:?}` writes of a text: quoted, with its special characters escaped.
pub uninterp spec fn debug_of(text: Seq<char>) -> Seq<char>;

/// `Debug` of `str`: its output depends on the text alone.
#[verifier::external_body]
pub(crate) fn debug_text(text: &str) -> (r: String)
    ensures
        r@ == debug_of(text@),
{
    format!("{:?}", text)
}

/// Whether two texts are the same.
pub fn same_text(a: &str, b: &str) -> (r: bool)
    ensures
        r == (a@ == b@),
{
    let r = !str_before(a, b) && !str_before(b, a);
    proof {
        lemma_text_before_total(a@, b@);
        lemma_text_before_irreflexive(a@);
    }
    r
}

/// The characters of a text.
pub fn chars_of(text: &str) -> (r: Vec<char>)
    ensures
        r@ == text@,
{
    let mut r: Vec<char> = Vec::new();
    for c in it: text.chars()
        invariant
            r@ == it.seq().subrange(0, it.index() as int),
            it.seq() == text@,
    {
        r.push(c);
    }
    proof {
        assert(r@ =~= text@);
    }
    r
}

/// The text of a run of characters.
pub fn text_of(chars: &Vec<char>, from: usize, to: usize) -> (r: String)
    requires
        from <= to <= chars@.len(),
    ensures
        r@ == chars@.subrange(from as int, to as int),
{
    let mut r = String::new();
    let mut i: usize = from;
    while i < to
        invariant
            from <= i <= to <= chars@.len(),
            r@ == chars@.subrange(from as int, i as int),
        decreases to - i,
    {
        r.push(chars[i]);
        i = i + 1;
        proof {
            assert(chars@.subrange(from as int, i as int) =~= chars@.subrange(
                from as int,
                i - 1,
            ).push(chars@[i - 1]));
        }
    }
    r
}

/// Two texts one after the other.
pub fn join2(a: &str, b: &str) -> (r: String)
    ensures
        r@ == a@ + b@,
{
    let mut r = String::new();
    r.append(a);
    r.append(b);
    proof {
        assert(r@ =~= a@ + b@);
    }
    r
}

/// Three texts one after the other.
pub fn join3(a: &str, b: &str, c: &str) -> (r: String)
    ensures
        r@ == a@ + b@ + c@,
{
    let mut r = join2(a, b);
    r.append(c);
    r
}

/// Five texts one after the other.
pub fn join5(a: &str, b: &str, c: &str, d: &str, e: &str) -> (r: String)
    ensures
        r@ == a@ + b@ + c@ + d@ + e@,
{
    let mut r = join3(a, b, c);
    r.append(d);
    r.append(e);
    r
}

/// Whether a text has nothing but white space, so that nothing is left of it when trimmed.
pub open spec fn is_blank(text: Seq<char>) -> bool {
    forall|i: int| 0 <= i < text.len() ==> char_is_whitespace(#[trigger] text[i])
}

/// Whether trimming leaves nothing of a text.
pub fn blank(text: &str) -> (r: bool)
    ensures
        r == is_blank(text@),
{
    let chars = chars_of(text);
    let mut i: usize = 0;
    while i < chars.len()
        invariant
            i <= chars@.len(),
            chars@ == text@,
            forall|j: int| 0 <= j < i ==> char_is_whitespace(#[trigger] text@[j]),
        decreases chars@.len() - i,
    {
        if !chars[i].is_whitespace() {
            proof {
                assert(!char_is_whitespace(text@[i as int]));
            }
            return false;
        }
        i = i + 1;
    }
    true
}

/// The hexadecimal digit of a value below sixteen; the decimal one below ten.
pub open spec fn digit_of(d: int) -> char {
    if d == 0 { '0' } else if d == 1 { '1' } else if d == 2 { '2' } else if d == 3 { '3' }
    else if d == 4 { '4' } else if d == 5 { '5' } else if d == 6 { '6' } else if d == 7 { '7' }
    else if d == 8 { '8' } else if d == 9 { '9' } else if d == 10 { 'a' } else if d == 11 { 'b' }
    else if d == 12 { 'c' } else if d == 13 { 'd' } else if d == 14 { 'e' } else { 'f' }
}

/// The digit of a value below sixteen.
pub fn digit(d: u8) -> (r: char)
    requires
        d < 16,
    ensures
        r == digit_of(d as int),
{
    match d {
        0 => '0', 1 => '1', 2 => '2', 3 => '3', 4 => '4', 5 => '5', 6 => '6', 7 => '7',
        8 => '8', 9 => '9', 10 => 'a', 11 => 'b', 12 => 'c', 13 => 'd', 14 => 'e',
        _ => 'f',
    }
}

/// A number in decimal notation.
pub open spec fn decimal_of(n: nat) -> Seq<char>
    decreases n,
{
    if n < 10 {
        seq![digit_of(n as int)]
    } else {
        decimal_of(n / 10).push(digit_of((n % 10) as int))
    }
}

/// A number in decimal notation.
pub fn decimal(n: u128) -> (r: String)
    ensures
        r@ == decimal_of(n as nat),
    decreases n,
{
    if n < 10 {
        let mut r = String::new();
        r.push(digit(n as u8));
        proof {
            assert(r@ =~= decimal_of(n as nat));
        }
        r
    } else {
        let mut r = decimal(n / 10);
        r.push(digit((n % 10) as u8));
        r
    }
}

/// A signed number in decimal notation.
pub open spec fn signed_decimal_of(n: int) -> Seq<char> {
    if n < 0 {
        seq!['-'] + decimal_of((-n) as nat)
    } else {
        decimal_of(n as nat)
    }
}

/// A signed number in decimal notation.
pub fn signed_decimal(n: i64) -> (r: String)
    ensures
        r@ == signed_decimal_of(n as int),
{
    if n < 0 {
        let magnitude: u64 = if n == i64::MIN {
            9_223_372_036_854_775_808u64
        } else {
            (-n) as u64
        };
        let mut r = String::new();
        r.push('-');
        let digits = decimal(magnitude as u128);
        r.append(digits.as_str());
        proof {
            assert(r@ =~= seq!['-'] + decimal_of((-n) as nat));
        }
        r
    } else {
        decimal(n as u128)
    }
}

/// A number in decimal notation, with leading zeros up to `width` digits.
pub open spec fn padded_decimal_of(n: nat, width: nat) -> Seq<char> {
    let digits = decimal_of(n);
    Seq::new(
        if digits.len() < width {
            (width - digits.len()) as nat
        } else {
            0
        },
        |i: int| '0',
    ) + digits
}

/// A number in decimal notation, with leading zeros up to `width` digits.
pub fn padded_decimal(n: u64, width: usize) -> (r: String)
    ensures
        r@ == padded_decimal_of(n as nat, width as nat),
{
    let digits = decimal(n as u128);
    let count: usize = digits.as_str().unicode_len();
    let mut r = String::new();
    let mut i: usize = count;
    while i < width
        invariant
            count == digits@.len(),
            count <= i,
            i <= width || i == count,
            r@ == Seq::new((i - count) as nat, |j: int| '0'),
        decreases width - i,
    {
        r.push('0');
        i = i + 1;
        proof {
            assert(r@ =~= Seq::new((i - count) as nat, |j: int| '0'));
        }
    }
    r.append(digits.as_str());
    proof {
        assert(r@ =~= padded_decimal_of(n as nat, width as nat));
    }
    r
}

/// The value of a decimal digit.
pub open spec fn digit_value(c: char) -> Option<int> {
    if 48 <= c as u32 <= 57 {
        Some(c as u32 - 48)
    } else {
        None
    }
}

/// The number that a run of decimal digits stands for.
pub open spec fn digits_value(text: Seq<char>) -> Option<nat>
    decreases text.len(),
{
    if text.len() == 0 {
        Some(0)
    } else {
        match (digits_value(text.drop_last()), digit_value(text.last())) {
            (Some(high), Some(low)) => Some((high * 10 + low) as nat),
            _ => None,
        }
    }
}

/// The unsigned 64-bit number that a text denotes: decimal digits after at most one `+`.
pub open spec fn u64_of(text: Seq<char>) -> Option<u64> {
    let digits = if text.len() > 0 && text[0] == '+' {
        text.drop_first()
    } else {
        text
    };
    match digits_value(digits) {
        Some(n) => if digits.len() > 0 && n <= u64::MAX {
            Some(n as u64)
        } else {
            None
        },
        None => None,
    }
}

proof fn lemma_digits_value_prefix(text: Seq<char>, i: int)
    requires
        0 <= i <= text.len(),
    ensures
        digits_value(text) is Some ==> digits_value(text.subrange(0, i)) is Some
            && digits_value(text.subrange(0, i))->0 <= digits_value(text)->0,
    decreases text.len() - i,
{
    if i < text.len() {
        lemma_digits_value_prefix(text, i + 1);
        let s = text.subrange(0, i + 1);
        assert(s.drop_last() =~= text.subrange(0, i));
    } else {
        assert(text.subrange(0, i) =~= text);
    }
}

/// Reads an unsigned 64-bit number in decimal notation.
pub fn parse_u64(text: &str) -> (r: Option<u64>)
    ensures
        r == u64_of(text@),
{
    let chars = chars_of(text);
    let start: usize = if chars.len() > 0 && chars[0] == '+' {
        1
    } else {
        0
    };
    let ghost digits = chars@.subrange(start as int, chars@.len() as int);
    proof {
        if start == 1 {
            assert(digits =~= text@.drop_first());
        } else {
            assert(digits =~= text@);
        }
    }
    if start == chars.len() {
        return None;
    }
    let mut value: u64 = 0;
    let mut i: usize = start;
    while i < chars.len()
        invariant
            start <= i <= chars@.len(),
            digits == chars@.subrange(start as int, chars@.len() as int),
            digits_value(digits.subrange(0, i - start)) == Some(value as nat),
            u64_of(text@) is Some ==> digits_value(digits) is Some && digits_value(digits)->0
                <= u64::MAX,
        decreases chars@.len() - i,
    {
        let c = chars[i];
        proof {
            let s = digits.subrange(0, i - start + 1);
            assert(s.drop_last() =~= digits.subrange(0, i - start));
            assert(s.last() == c);
            lemma_digits_value_prefix(digits, i - start + 1);
        }
        if (c as u32) < 48 || (c as u32) > 57 {
            proof {
                assert(digit_value(c) is None);
            }
            return None;
        }
        let low: u64 = (c as u32 - 48) as u64;
        match value.checked_mul(10) {
            None => {
                return None;
            },
            Some(high) => match high.checked_add(low) {
                None => {
                    return None;
                },
                Some(next) => {
                    value = next;
                },
            },
        }
        i = i + 1;
    }
    proof {
        assert(digits.subrange(0, i - start) =~= digits);
    }
    Some(value)
}

proof fn lemma_decimal_digits(n: nat)
    ensures
        decimal_of(n).len() > 0,
        decimal_of(n)[0] != '+',
        digits_value(decimal_of(n)) == Some(n),
    decreases n,
{
    let text = decimal_of(n);
    if n >= 10 {
        lemma_decimal_digits(n / 10);
        assert(text.drop_last() =~= decimal_of(n / 10));
        assert(text[0] == decimal_of(n / 10)[0]);
    } else {
        assert(text.drop_last() =~= Seq::<char>::empty());
        assert(digits_value(text.drop_last()) == Some(0nat));
    }
}

/// Reading the decimal notation of a number gives the number back.
pub proof fn law_decimal_round_trip(n: u64)
    ensures
        u64_of(decimal_of(n as nat)) == Some(n),
{
    lemma_decimal_digits(n as nat);
}

/// Bytes in lower-case hexadecimal notation.
pub open spec fn hex_of(bytes: Seq<u8>) -> Seq<char> {
    Seq::new(
        2 * bytes.len(),
        |i: int|
            if i % 2 == 0 {
                digit_of(bytes[i / 2] as int / 16)
            } else {
                digit_of(bytes[i / 2] as int % 16)
            },
    )
}

/// Bytes in lower-case hexadecimal notation.
pub fn hex(bytes: &[u8]) -> (r: String)
    ensures
        r@ == hex_of(bytes@),
{
    let mut r = String::new();
    let mut i: usize = 0;
    while i < bytes.len()
        invariant
            i <= bytes@.len(),
            r@ == hex_of(bytes@.subrange(0, i as int)),
        decreases bytes@.len() - i,
    {
        let b: u8 = bytes[i];
        r.push(digit(b / 16));
        r.push(digit(b % 16));
        i = i + 1;
        proof {
            assert(r@ =~= hex_of(bytes@.subrange(0, i as int)));
        }
    }
    proof {
        assert(bytes@.subrange(0, i as int) =~= bytes@);
    }
    r
}

/// The value of a hexadecimal digit in ASCII, in either case.
pub open spec fn hex_digit_value(b: u8) -> Option<u8> {
    if 48 <= b <= 57 {
        Some((b - 48) as u8)
    } else if 97 <= b <= 102 {
        Some((b - 87) as u8)
    } else if 65 <= b <= 70 {
        Some((b - 55) as u8)
    } else {
        None
    }
}

/// The byte that two ASCII characters denote in base sixteen; the first may be a `+`.
pub open spec fn hex_pair_value(high: u8, low: u8) -> Option<u8> {
    match (hex_digit_value(high), hex_digit_value(low)) {
        (Some(h), Some(l)) => Some((h * 16 + l) as u8),
        (None, Some(l)) => if high == 43 {
            Some(l)
        } else {
            None
        },
        _ => None,
    }
}

/// The bytes that a text of hexadecimal pairs denotes.
pub open spec fn hex_pairs_value(text: Seq<u8>) -> Option<Seq<u8>> {
    if text.len() % 2 == 0 && forall|i: int|
        0 <= i < text.len() / 2 ==> hex_pair_value(#[trigger] text[2 * i], text[2 * i + 1]) is Some {
        Some(
            Seq::new(text.len() / 2, |i: int| hex_pair_value(text[2 * i], text[2 * i + 1])->0),
        )
    } else {
        None
    }
}

fn hex_digit(b: u8) -> (r: Option<u8>)
    ensures
        r == hex_digit_value(b),
        r is Some ==> r->0 < 16,
{
    if 48 <= b && b <= 57 {
        Some(b - 48)
    } else if 97 <= b && b <= 102 {
        Some(b - 87)
    } else if 65 <= b && b <= 70 {
        Some(b - 55)
    } else {
        None
    }
}

fn hex_pair(high: u8, low: u8) -> (r: Option<u8>)
    ensures
        r == hex_pair_value(high, low),
{
    match (hex_digit(high), hex_digit(low)) {
        (Some(h), Some(l)) => Some(h * 16 + l),
        (None, Some(l)) => if high == 43 {
            Some(l)
        } else {
            None
        },
        _ => None,
    }
}

/// Reads hexadecimal pairs.
pub fn parse_hex(text: &[u8]) -> (r: Option<Vec<u8>>)
    ensures
        match r {
            Some(bytes) => hex_pairs_value(text@) == Some(bytes@),
            None => hex_pairs_value(text@) is None,
        },
{
    if text.len() % 2 != 0 {
        return None;
    }
    let mut bytes: Vec<u8> = Vec::new();
    let mut i: usize = 0;
    while i < text.len()
        invariant
            i <= text@.len(),
            i % 2 == 0,
            text@.len() % 2 == 0,
            bytes@.len() == i / 2,
            forall|j: int|
                0 <= j < i / 2 ==> hex_pair_value(#[trigger] text@[2 * j], text@[2 * j + 1])
                    == Some(bytes@[j]),
        decreases text@.len() - i,
    {
        match hex_pair(text[i], text[i + 1]) {
            None => {
                proof {
                    assert(hex_pair_value(text@[2 * (i as int / 2)], text@[2 * (i as int / 2) + 1])
                        is None);
                }
                return None;
            },
            Some(b) => {
                bytes.push(b);
            },
        }
        i = i + 2;
    }
    proof {
        assert(bytes@ =~= hex_pairs_value(text@)->0);
    }
    Some(bytes)
}

/// Reading the hexadecimal notation of bytes gives the bytes back.
pub proof fn law_hex_round_trip(bytes: Seq<u8>)
    ensures
        hex_pairs_value(vstd::utf8::encode_utf8(hex_of(bytes))) == Some(bytes),
{
    let text = hex_of(bytes);
    assert(vstd::utf8::is_ascii_chars(text)) by {
        assert forall|i: int| 0 <= i < text.len() implies 0 <= #[trigger] text[i] as nat <= 127 by {
        }
    }
    vstd::utf8::is_ascii_chars_encode_utf8(text);
    let b = vstd::utf8::encode_utf8(text);
    assert(b =~= Seq::new(text.len(), |i: int| text[i] as u8));
    assert forall|i: int| 0 <= i < bytes.len() implies hex_pair_value(#[trigger] b[2 * i], b[2 * i + 1])
        == Some(bytes[i]) by {
        assert(text[2 * i] == digit_of(bytes[i] as int / 16));
        assert(text[2 * i + 1] == digit_of(bytes[i] as int % 16));
    }
    assert(hex_pairs_value(b)->0 =~= bytes);
}

/// A character with ASCII capitals taken as small letters.
pub open spec fn folded_char(c: char) -> char {
    if 'A' <= c <= 'Z' {
        ((c as u8) + 32) as u8 as char
    } else {
        c
    }
}

/// A text with ASCII capitals taken as small letters.
pub open spec fn folded(text: Seq<char>) -> Seq<char> {
    Seq::new(text.len(), |i: int| folded_char(text[i]))
}

/// A text with ASCII capitals taken as small letters.
pub fn fold_case(text: &str) -> (r: String)
    ensures
        r@ == folded(text@),
{
    let chars = chars_of(text);
    let mut r = String::new();
    let mut i: usize = 0;
    proof {
        assert(r@ =~= folded(chars@.subrange(0, 0)));
    }
    while i < chars.len()
        invariant
            i <= chars@.len(),
            r@ == folded(chars@.subrange(0, i as int)),
        decreases chars@.len() - i,
    {
        let c = chars[i];
        if 'A' <= c && c <= 'Z' {
            r.push((c as u8 + 32) as char);
        } else {
            r.push(c);
        }
        i = i + 1;
        proof {
            assert(r@ =~= folded(chars@.subrange(0, i as int)));
        }
    }
    proof {
        assert(chars@.subrange(0, i as int) =~= text@);
    }
    r
}

} // verus!
