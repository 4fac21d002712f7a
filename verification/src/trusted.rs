//! The two places where the library calls runtime code that Verus does not
//! verify: UTF-8 validation and lossy UTF-8 decoding. Each wrapper's contract
//! states what the callee is documented to do; nothing else in the crate is
//! taken on trust.

use vstd::prelude::*;

use crate::model::is_utf8;
use crate::model::utf8_lossy_of;

verus! {

/// Relies on simdutf8::basic::from_utf8: returns `Ok` exactly when the input
/// is well-formed UTF-8 per RFC 3629, which `is_utf8` states byte for byte.
#[verifier::external_body]
pub(crate) fn utf8_is_valid(bytes: &Vec<u8>) -> (r: bool)
    ensures
        r == is_utf8(bytes@),
{
    simdutf8::basic::from_utf8(bytes.as_slice()).is_ok()
}

/// Relies on std's String::from_utf8_lossy: decodes bytes to text, replacing
/// invalid sequences with U+FFFD; the result depends on the bytes alone.
#[verifier::external_body]
pub(crate) fn lossy_string(bytes: &[u8]) -> (r: String)
    ensures
        r@ == utf8_lossy_of(bytes@),
{
    String::from_utf8_lossy(bytes).into_owned()
}

} // verus!
