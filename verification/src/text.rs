//! Text decoding from bytes.
use vstd::prelude::*;
use vstd::utf8::{decode_utf8, valid_utf8};

verus! {

/// The text that `String::from_utf8_lossy` makes of `bytes`: each maximal
/// invalid subsequence is replaced by U+FFFD.
pub uninterp spec fn utf8_lossy(bytes: Seq<u8>) -> Seq<char>;

/// `std::str::from_utf8`: the string that `bytes` encodes in UTF-8, or `None`
/// when the bytes are not UTF-8.  The contract states std's documented
/// behaviour over vstd's definition of UTF-8.
#[verifier::external_body]
pub(crate) fn utf8_decode(bytes: &[u8]) -> (r: Option<String>)
    ensures
        r is Some <==> valid_utf8(bytes@),
        r matches Some(s) ==> s@ == decode_utf8(bytes@),
{
    match std::str::from_utf8(bytes) {
        Ok(s) => Some(s.to_string()),
        Err(_) => None,
    }
}

/// `String::from_utf8_lossy`: the text of `bytes`, with each invalid sequence
/// replaced by U+FFFD.  The contract names the result; it states that valid
/// UTF-8 is decoded unchanged, which std documents, and leaves the
/// replacement rules to the name.
#[verifier::external_body]
pub(crate) fn utf8_decode_lossy(bytes: &[u8]) -> (r: String)
    ensures
        r@ == utf8_lossy(bytes@),
        valid_utf8(bytes@) ==> r@ == decode_utf8(bytes@),
{
    String::from_utf8_lossy(bytes).into_owned()
}

} // verus!
