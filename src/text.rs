use vstd::prelude::*;

use vstd::string::StringSliceAdditionalSpecFns;
use vstd::utf8::{decode_utf8, valid_utf8};

verus! {

/// The characters that a byte sequence decodes to, with each ill-formed part
/// replaced by U+FFFD.
pub uninterp spec fn utf8_lossy(b: Seq<u8>) -> Seq<char>;

/// Relies on `String::from_utf8_lossy`: its result depends on the bytes alone, and
/// well-formed UTF-8 decodes to exactly its characters.
#[verifier::external_body]
pub(crate) fn decode_lossy(b: &[u8]) -> (r: String)
    ensures
        r@ == utf8_lossy(b@),
        valid_utf8(b@) ==> r@ == decode_utf8(b@),
{
    String::from_utf8_lossy(b).into_owned()
}

/// An owned copy of `s`.
pub fn owned(s: &str) -> (r: String)
    ensures
        r@ == s@,
{
    broadcast use vstd::string::to_string_from_display_ensures_for_str;

    s.to_string()
}

/// Whether two strings hold the same characters.
pub fn str_eq(a: &str, b: &str) -> (r: bool)
    ensures
        r == (a@ == b@),
{
    let x = a.as_bytes();
    let y = b.as_bytes();
    proof {
        vstd::utf8::encode_utf8_decode_utf8(a@);
        vstd::utf8::encode_utf8_decode_utf8(b@);
    }
    if x.len() != y.len() {
        return false;
    }
    let mut i: usize = 0;
    while i < x.len()
        invariant
            x@ == a.spec_bytes(),
            y@ == b.spec_bytes(),
            x@.len() == y@.len(),
            0 <= i <= x@.len(),
            forall|j: int| 0 <= j < i ==> x@[j] == y@[j],
        decreases x@.len() - i,
    {
        if x[i] != y[i] {
            return false;
        }
        i += 1;
    }
    assert(x@ =~= y@);
    true
}

} // verus!
