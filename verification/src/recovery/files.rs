//! Which files recovery keeps, and what they are called.
use vstd::prelude::*;
use crate::error::CoreError;
use crate::recovery::artifacts::{recovery_corrupt, recovery_fault, RecoveryManifest};
use crate::recovery::plan::BaselineFacts;
use crate::text::{chars_of, decimal, decimal_of, join3, same_text, text_of};

verus! {

fn begins_with(text: &str, start: &str) -> (r: bool)
    ensures
        r == start@.is_prefix_of(text@),
{
    let chars = chars_of(text);
    let length: usize = chars_of(start).len();
    if length > chars.len() {
        return false;
    }
    let head = text_of(&chars, 0, length);
    same_text(head.as_str(), start)
}

fn ends_with(text: &str, end: &str) -> (r: bool)
    ensures
        r == end@.is_suffix_of(text@),
{
    let chars = chars_of(text);
    let length: usize = chars_of(end).len();
    if length > chars.len() {
        return false;
    }
    let tail = text_of(&chars, chars.len() - length, chars.len());
    same_text(tail.as_str(), end)
}

/// Whether a file is a baseline that a reset leaves behind.
pub open spec fn left_by_reset(name: Seq<char>) -> bool {
    "baseline-"@.is_prefix_of(name) && ".sqlite"@.is_suffix_of(name) && name
        != "baseline-A.sqlite"@
}

/// Whether a file in the recovery directory is a baseline that a reset leaves behind: every one but
/// that which the reset made.
pub fn is_left_by_reset(name: &str) -> (r: bool)
    ensures
        r == left_by_reset(name@),
{
    begins_with(name, "baseline-") && ends_with(name, ".sqlite") && !same_text(
        name,
        "baseline-A.sqlite",
    )
}

/// Whether a manifest names no segment in this file.
pub fn is_unreferenced_segment(manifest: &RecoveryManifest, name: &str) -> (r: bool)
    ensures
        r == forall|i: int|
            0 <= i < manifest@.segments.len() ==> (#[trigger] manifest@.segments[i]).filename
                != name@,
{
    let mut i: usize = 0;
    while i < manifest.segments.len()
        invariant
            i <= manifest.segments@.len(),
            forall|j: int|
                0 <= j < i ==> (#[trigger] manifest@.segments[j]).filename != name@,
        decreases manifest.segments@.len() - i,
    {
        proof {
            assert(manifest@.segments[i as int].filename == manifest.segments@[i as int].filename@);
        }
        if same_text(manifest.segments[i].filename.as_str(), name) {
            return false;
        }
        i = i + 1;
    }
    true
}

/// What a damaged Record Store is called that gives way to a reconstructed one.
pub fn damaged_filename(generation: u64) -> (r: String)
    ensures
        r@ == "records.damaged-"@ + decimal_of(generation as nat) + ".sqlite"@,
{
    let number = decimal(generation as u128);
    join3("records.damaged-", number.as_str(), ".sqlite")
}

/// Refuses a baseline that was just written and is not the store it was written of.
pub fn check_baseline(revision: u64, found: BaselineFacts) -> (r: Result<(), CoreError>)
    ensures
        match r {
            Ok(_) => found.revision == revision && found.integrity_ok,
            Err(e) => (found.revision != revision || !found.integrity_ok) && e@ == recovery_fault(
                "online baseline failed validation"@,
            ),
        },
{
    if found.revision != revision || !found.integrity_ok {
        return Err(recovery_corrupt("online baseline failed validation".to_owned()));
    }
    Ok(())
}

} // verus!
