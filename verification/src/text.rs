//! Turning the tree's raw bytes into strings.

use vstd::prelude::*;
use vstd::utf8::{decode_utf8, valid_utf8};

verus! {

/// The text that a byte string decodes to. For well-formed UTF-8 this is the
/// decoded string; otherwise each malformed part reads as U+FFFD.
pub uninterp spec fn lossy_text(bytes: Seq<u8>) -> Seq<char>;

/// Decodes raw bytes into an owned string.
///
/// Trusted: calls `String::from_utf8_lossy`, which never fails. The contract
/// names the result and records the one fact the standard library documents
/// about it: well-formed UTF-8 decodes to itself.
#[verifier::external_body]
pub(crate) fn decode_text(bytes: &[u8]) -> (s: String)
    ensures
        s@ == lossy_text(bytes@),
        valid_utf8(bytes@) ==> s@ == decode_utf8(bytes@),
{
    String::from_utf8_lossy(bytes).into_owned()
}

/// Whether the bytes are well-formed UTF-8.
///
/// Trusted: calls `core::str::from_utf8`, which succeeds exactly on
/// well-formed UTF-8.
#[verifier::external_body]
pub(crate) fn is_utf8(bytes: &[u8]) -> (ok: bool)
    ensures
        ok == valid_utf8(bytes@),
{
    core::str::from_utf8(bytes).is_ok()
}

/// The text of an optional byte string: nothing decodes to the empty string.
pub open spec fn opt_text(bytes: Option<Seq<u8>>) -> Seq<char> {
    match bytes {
        Some(b) => lossy_text(b),
        None => Seq::empty(),
    }
}

/// Decodes an optional byte string; an absent one gives the empty string.
pub(crate) fn decode_opt(bytes: &Option<Vec<u8>>) -> (s: String)
    ensures
        s@ == opt_text(crate::tree::opt_bytes(*bytes)),
{
    match bytes {
        Some(b) => decode_text(b.as_slice()),
        None => String::new(),
    }
}

} // verus!
