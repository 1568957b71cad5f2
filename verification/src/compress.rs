//! Zstandard frames, through the `zstd` crate.

use vstd::prelude::*;

verus! {

/// What a stream of Zstandard frames decodes to; `None` where decoding
/// fails.
pub uninterp spec fn zstd_content(frame: Seq<u8>) -> Option<Seq<u8>>;

/// `zstd::stream::decode_all` on a byte slice: the decoded content, or
/// `None` where the decoder reports an error. What comes out depends on the
/// bytes alone.
#[verifier::external_body]
pub(crate) fn zstd_decode(frame: &[u8]) -> (content: Option<Vec<u8>>)
    ensures
        content is Some <==> zstd_content(frame@) is Some,
        content is Some ==> content->0@ == zstd_content(frame@)->0,
{
    match zstd::stream::decode_all(frame) {
        Ok(content) => Some(content),
        Err(_) => None,
    }
}

/// The frame that the encoder makes of `content` at `level`; `None` where
/// it reports an error.
pub uninterp spec fn zstd_frame(content: Seq<u8>, level: i32) -> Option<Seq<u8>>;

/// `zstd::stream::encode_all` on a byte slice: the frame for `content` at
/// `level`, or `None` where the encoder reports an error. Without a
/// dictionary the encoder's output depends on content and level alone, and
/// Zstandard is lossless: a frame that comes back decodes to `content`.
#[verifier::external_body]
pub(crate) fn zstd_encode(content: &[u8], level: i32) -> (frame: Option<Vec<u8>>)
    ensures
        frame is Some <==> zstd_frame(content@, level) is Some,
        frame is Some ==> frame->0@ == zstd_frame(content@, level)->0,
        frame is Some ==> zstd_content(frame->0@) == Some(content@),
{
    match zstd::stream::encode_all(content, level) {
        Ok(frame) => Some(frame),
        Err(_) => None,
    }
}

} // verus!
