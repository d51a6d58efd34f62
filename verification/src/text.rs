//! Trusted boundary between text and bytes: names for std's UTF-8 encoding
//! and its lossy decoding, so that contracts can follow a name through the
//! store and back.

use vstd::prelude::*;

verus! {

/// What `str::as_bytes` returns: the UTF-8 bytes of the text.
pub uninterp spec fn utf8_bytes_of(s: Seq<char>) -> Seq<u8>;

/// What `String::from_utf8_lossy` returns for any bytes.
pub uninterp spec fn utf8_lossy_of(b: Seq<u8>) -> Seq<char>;

/// Relies on str::as_bytes: the UTF-8 encoding of the text.  std documents
/// that decoding those bytes, lossily or not, gives the text back.
#[verifier::external_body]
pub(crate) fn str_to_bytes(s: &str) -> (r: Vec<u8>)
    ensures
        r@ == utf8_bytes_of(s@),
        utf8_lossy_of(r@) == s@,
{
    s.as_bytes().to_vec()
}

/// Relies on String::from_utf8_lossy: the text read from the bytes, with
/// any ill-formed part replaced; a function of the bytes alone.
#[verifier::external_body]
pub(crate) fn bytes_to_string_lossy(b: &Vec<u8>) -> (r: String)
    ensures
        r@ == utf8_lossy_of(b@),
{
    String::from_utf8_lossy(b.as_slice()).into_owned()
}

} // verus!
