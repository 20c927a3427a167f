//! Unicode canonicalization. The NFC algorithm itself is an external
//! collaborator: this crate consumes it as a pure function of the input
//! characters and relies on its documented idempotence and on the canonical
//! mappings never producing the ASCII characters the grammar forbids.

use unicode_normalization::UnicodeNormalization;
use vstd::prelude::*;

use crate::grammar::is_valid_dot_atom;
use crate::parser::spec_is_ascii_control_and_not_htab;
use crate::parser::spec_is_not_dtext;

verus! {

/// The NFC form (Unicode canonical decomposition followed by canonical
/// composition) of a character sequence.
pub uninterp spec fn nfc_of(s: Seq<char>) -> Seq<char>;

/// Relies on `unicode_normalization::UnicodeNormalization::nfc`: the
/// returned iterator yields the NFC form of the input characters, a pure,
/// deterministic function of those characters; normalization is idempotent
/// (Unicode Standard Annex #15), so the result is its own NFC form.
///
/// NFC applies only canonical decompositions, canonical reordering of
/// combining marks, and canonical compositions. None of the canonical
/// mappings in the crate's data tables produces an ASCII control character,
/// space, or ASCII punctuation (the compatibility mappings that target
/// those are not applied by NFC), and reordering permutes only combining
/// marks, never across a starter such as `.`. So a field free of the
/// characters one of the grammar's classes forbids stays free of them, and
/// the dot-separated label structure of a valid dot-atom is unchanged.
/// ASCII characters have no canonical decompositions or compositions and
/// have combining class zero, so an all-ASCII input is returned unchanged.
#[verifier::external_body]
fn nfc(value: &str) -> (r: String)
    ensures
        r@ == nfc_of(value@),
        nfc_of(r@) == r@,
        (forall|k: int|
            0 <= k < value@.len() ==> !spec_is_ascii_control_and_not_htab(#[trigger] value@[k]))
            ==> (forall|k: int|
            0 <= k < r@.len() ==> !spec_is_ascii_control_and_not_htab(#[trigger] r@[k])),
        is_valid_dot_atom(value@) ==> is_valid_dot_atom(r@),
        (forall|k: int| 0 <= k < value@.len() ==> !spec_is_not_dtext(#[trigger] value@[k])) ==> (
        forall|k: int| 0 <= k < r@.len() ==> !spec_is_not_dtext(#[trigger] r@[k])),
        vstd::utf8::is_ascii_chars(value@) ==> r@ == value@,
{
    value.nfc().collect()
}

/// The stored form of a field: its NFC form when normalization is enabled,
/// the raw text otherwise (a byte-identical passthrough).
pub open spec fn spec_normalize_field(s: Seq<char>, normalize: bool) -> Seq<char> {
    if normalize {
        nfc_of(s)
    } else {
        s
    }
}

/// NFC-normalizes one field. Every result is a normalization fixed point:
/// normalizing an already-normalized field returns it unchanged, and an
/// all-ASCII field is already normalized. The grammar classes of the input
/// carry over: a field free of forbidden characters stays free of them, and
/// a valid dot-atom stays one.
pub fn normalize(value: &str) -> (r: String)
    ensures
        r@ == nfc_of(value@),
        nfc_of(r@) == r@,
        nfc_of(value@) == value@ ==> r@ == value@,
        (forall|k: int|
            0 <= k < value@.len() ==> !spec_is_ascii_control_and_not_htab(#[trigger] value@[k]))
            ==> (forall|k: int|
            0 <= k < r@.len() ==> !spec_is_ascii_control_and_not_htab(#[trigger] r@[k])),
        is_valid_dot_atom(value@) ==> is_valid_dot_atom(r@),
        (forall|k: int| 0 <= k < value@.len() ==> !spec_is_not_dtext(#[trigger] value@[k])) ==> (
        forall|k: int| 0 <= k < r@.len() ==> !spec_is_not_dtext(#[trigger] r@[k])),
        vstd::utf8::is_ascii_chars(value@) ==> r@ == value@,
{
    nfc(value)
}

} // verus!
