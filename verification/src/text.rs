//! Text from bytes: UTF-8 checks and conversions.
use vstd::prelude::*;
use vstd::string::StringSliceAdditionalSpecFns;
use vstd::utf8::valid_utf8;

verus! {

/// `core::str::from_utf8`: the text that `b` encodes when `b` is
/// well-formed UTF-8 (as `vstd::utf8::valid_utf8` defines it), and `None`
/// otherwise; the text borrows the same bytes.
#[verifier::external_body]
pub(crate) fn str_from_utf8(b: &[u8]) -> (r: Option<&str>)
    ensures
        r is Some <==> valid_utf8(b@),
        r is Some ==> r.unwrap().spec_bytes() == b@,
{
    core::str::from_utf8(b).ok()
}

/// Whether `b` is well-formed UTF-8.
pub fn is_utf8(b: &[u8]) -> (r: bool)
    ensures
        r == valid_utf8(b@),
{
    str_from_utf8(b).is_some()
}

/// The bytes of the text `b` spells: `b` itself when it is valid UTF-8,
/// else nothing.
pub open spec fn text_or_empty(b: Seq<u8>) -> Seq<u8> {
    if valid_utf8(b) { b } else { Seq::empty() }
}

/// `core::str::from_utf8(b).unwrap_or("")`.
pub fn str_or_empty(b: &[u8]) -> (r: &str)
    ensures
        r.spec_bytes() == text_or_empty(b@),
{
    match str_from_utf8(b) {
        Some(s) => s,
        None => {
            let e = "";
            proof {
                reveal_strlit("");
                vstd::string::is_ascii_spec_bytes(e);
                assert(e.spec_bytes() =~= Seq::<u8>::empty());
            }
            e
        },
    }
}

} // verus!
