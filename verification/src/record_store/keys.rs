//! Rules on keys, labels and origins.
use vstd::prelude::*;
use vstd::utf8::encode_utf8;
use crate::error::{conflict, CoreError, ErrorView};
use crate::text::{
    blank, char_is_control, char_is_whitespace, chars_of, debug_of, debug_text, is_blank, join2,
};

verus! {

/// What a key names.
#[derive(Debug, Clone, Copy, PartialEq, Eq, Structural)]
pub enum KeyUse {
    Property,
    Relationship,
    Definition,
}

/// Whether a text can be a key: at least one character and at most 255 bytes, no white space at
/// either end, no control character.
pub open spec fn key_ok(key: Seq<char>) -> bool {
    &&& key.len() > 0
    &&& encode_utf8(key).len() <= 255
    &&& !char_is_whitespace(key[0])
    &&& !char_is_whitespace(key.last())
    &&& forall|i: int| 0 <= i < key.len() ==> !char_is_control(#[trigger] key[i])
}

/// The failure that shows a refused key as it is quoted.
pub open spec fn invalid_key(quoted: Seq<char>, used: KeyUse) -> ErrorView {
    if used is Relationship {
        ErrorView::InvalidRelationship("invalid key "@ + quoted)
    } else {
        ErrorView::InvalidProperty("invalid key "@ + quoted)
    }
}

/// Why a key is refused.
pub open spec fn key_fault(key: Seq<char>, used: KeyUse) -> Option<ErrorView> {
    if key_ok(key) {
        None
    } else {
        Some(invalid_key(debug_of(key), used))
    }
}

/// Refuses what cannot be a key.
pub fn validate_key(key: &str, used: KeyUse) -> (r: Result<(), CoreError>)
    ensures
        match r {
            Ok(_) => key_fault(key@, used) is None,
            Err(e) => key_fault(key@, used) == Some(e@),
        },
{
    let chars = chars_of(key);
    let mut ok = chars.len() > 0 && key.as_bytes().len() <= 255 && !chars[0].is_whitespace()
        && !chars[chars.len() - 1].is_whitespace();
    let mut i: usize = 0;
    while i < chars.len()
        invariant
            chars@ == key@,
            i <= chars@.len(),
            ok == (chars@.len() > 0 && encode_utf8(key@).len() <= 255 && !char_is_whitespace(
                key@[0],
            ) && !char_is_whitespace(key@.last()) && forall|j: int|
                0 <= j < i ==> !char_is_control(#[trigger] key@[j])),
        decreases chars@.len() - i,
    {
        if chars[i].is_control() {
            proof {
                assert(char_is_control(key@[i as int]));
            }
            ok = false;
        }
        i = i + 1;
    }
    if ok {
        Ok(())
    } else {
        let shown = debug_text(key);
        Err(refused_key(shown.as_str(), used))
    }
}

/// The failure that shows a refused key as it is quoted.
pub fn refused_key(quoted: &str, used: KeyUse) -> (r: CoreError)
    ensures
        r@ == invalid_key(quoted@, used),
{
    let message = join2("invalid key ", quoted);
    match used {
        KeyUse::Relationship => CoreError::InvalidRelationship(message),
        _ => CoreError::InvalidProperty(message),
    }
}

/// Why the key, label and origin of a definition are refused.
pub open spec fn definition_fields_fault(
    key: Seq<char>,
    label: Seq<char>,
    origin: Seq<char>,
) -> Option<ErrorView> {
    match key_fault(key, KeyUse::Definition) {
        Some(fault) => Some(fault),
        None => if is_blank(label) || is_blank(origin) {
            Some(ErrorView::Conflict("definition label and origin must be non-empty"@))
        } else {
            None
        },
    }
}

/// Refuses a definition whose key cannot be one, or whose label or origin is blank.
pub fn validate_definition_fields(key: &str, label: &str, origin: &str) -> (r: Result<
    (),
    CoreError,
>)
    ensures
        match r {
            Ok(_) => definition_fields_fault(key@, label@, origin@) is None,
            Err(e) => definition_fields_fault(key@, label@, origin@) == Some(e@),
        },
{
    match validate_key(key, KeyUse::Definition) {
        Err(e) => Err(e),
        Ok(_) => if blank(label) || blank(origin) {
            Err(conflict("definition label and origin must be non-empty"))
        } else {
            Ok(())
        },
    }
}

} // verus!
