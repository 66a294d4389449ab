use vstd::prelude::*;

verus! {

/// What inflating a zlib stream gives: the bytes, or `None` for a stream that
/// the decoder refuses. The format is not written out here: the name stands
/// for what `zune_inflate` computes.
pub uninterp spec fn zlib_inflated(stream: Seq<u8>) -> Option<Seq<u8>>;

/// The zlib stream that the encoder writes for `data`.
pub uninterp spec fn zlib_deflated(data: Seq<u8>) -> Seq<u8>;

/// The error of the decoder, carried through unread.
#[verifier::external_type_specification]
#[verifier::external_body]
pub struct ExInflateDecodeErrors(zune_inflate::errors::InflateDecodeErrors);

/// Calls `zune_inflate::DeflateDecoder::decode_zlib` on a decoder with the
/// default options. The contract only names the outcome.
#[verifier::external_body]
pub(crate) fn zlib_decode(stream: &[u8]) -> (out: Result<
    Vec<u8>,
    zune_inflate::errors::InflateDecodeErrors,
>)
    ensures
        match out {
            Ok(data) => zlib_inflated(stream@) == Some(data@),
            Err(_) => zlib_inflated(stream@) is None,
        },
{
    zune_inflate::DeflateDecoder::new(stream).decode_zlib()
}

/// Calls `zune_inflate::DeflateEncoder::encode_zlib`. The contract only names
/// the stream.
#[verifier::external_body]
pub(crate) fn zlib_encode(data: &[u8]) -> (stream: Vec<u8>)
    ensures
        stream@ == zlib_deflated(data@),
{
    zune_inflate::DeflateEncoder::new(data).encode_zlib()
}

} // verus!
