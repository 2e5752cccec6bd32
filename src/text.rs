//! Text rules that come from std: UTF-8 validity and Unicode lower-casing.

use vstd::prelude::*;
use vstd::string::StringSliceAdditionalSpecFns;
use vstd::utf8::{decode_utf8, encode_utf8, encode_utf8_decode_utf8, valid_utf8};
use crate::bytes::copy_range;

verus! {

/// What `str::to_lowercase` gives for a string of these characters.
pub uninterp spec fn lower_of(s: Seq<char>) -> Seq<char>;

/// Lower-casing of UTF-8 bytes, character by character.
pub open spec fn lower_utf8(b: Seq<u8>) -> Seq<u8> {
    encode_utf8(lower_of(decode_utf8(b)))
}

/// Relies on `std::str::from_utf8`: it succeeds exactly on valid UTF-8, and
/// then gives a `str` over the same bytes.
#[verifier::external_body]
fn utf8_str(b: &[u8]) -> (r: Option<&str>)
    ensures
        r is Some <==> valid_utf8(b@),
        r matches Some(s) ==> s.spec_bytes() == b@,
{
    std::str::from_utf8(b).ok()
}

/// Relies on `str::to_lowercase`: the result depends on the characters alone.
#[verifier::external_body]
fn lowercase(s: &str) -> (r: String)
    ensures
        r@ == lower_of(s@),
{
    s.to_lowercase()
}

/// Whether `b` is valid UTF-8.
pub fn is_utf8(b: &[u8]) -> (r: bool)
    ensures
        r == valid_utf8(b@),
{
    utf8_str(b).is_some()
}

/// The lower-cased bytes of UTF-8 text; `None` when `b` is not UTF-8.
pub fn to_lower_utf8(b: &[u8]) -> (r: Option<Vec<u8>>)
    ensures
        r is Some <==> valid_utf8(b@),
        r matches Some(v) ==> v@ == lower_utf8(b@),
{
    match utf8_str(b) {
        None => None,
        Some(s) => {
            let l = lowercase(s);
            let bytes = l.as_str().as_bytes();
            proof {
                encode_utf8_decode_utf8(s@);
            }
            Some(copy_range(bytes, 0, bytes.len()))
        },
    }
}

} // verus!
