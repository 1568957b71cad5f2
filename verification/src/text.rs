//! Moving between UTF-8 bytes and owned strings.

use vstd::prelude::*;
use vstd::utf8::*;

verus! {

/// `std::str::from_utf8` followed by `to_owned`: the text whose UTF-8 encoding
/// is exactly `bytes`, or `None` when `bytes` is not valid UTF-8.
#[verifier::external_body]
pub(crate) fn utf8_text(bytes: &[u8]) -> (text: Option<String>)
    ensures
        text is Some <==> valid_utf8(bytes@),
        text is Some ==> encode_utf8(text->0@) == bytes@,
{
    match std::str::from_utf8(bytes) {
        Ok(s) => Some(s.to_owned()),
        Err(_) => None,
    }
}

/// Decoding what was encoded gives the text back, so two texts with the same
/// encoding are the same text.
pub proof fn lemma_encoding_is_injective(a: Seq<char>, b: Seq<char>)
    requires
        encode_utf8(a) == encode_utf8(b),
    ensures
        a == b,
{
    encode_utf8_decode_utf8(a);
    encode_utf8_decode_utf8(b);
}

} // verus!
