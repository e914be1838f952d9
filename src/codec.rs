use vstd::prelude::*;

use crate::bytes::hex_spec;

verus! {

/// What a zlib stream inflates to: `None` when it is not a valid stream.
pub uninterp spec fn zlib_inflated(data: Seq<u8>) -> Option<Seq<u8>>;

/// Relies on flate2::read::ZlibDecoder with std::io::Read::read_to_end:
/// the bytes that the zlib stream in `data` inflates to, or `None` when the
/// decoder reports an error. The input is in memory, so the outcome depends on
/// the bytes alone.
#[verifier::external_body]
pub(crate) fn inflate(data: &[u8]) -> (r: Option<Vec<u8>>)
    ensures
        match r {
            Some(v) => zlib_inflated(data@) == Some(v@),
            None => zlib_inflated(data@).is_none(),
        },
{
    let mut decoder = flate2::read::ZlibDecoder::new(data);
    let mut out: Vec<u8> = Vec::new();
    match std::io::Read::read_to_end(&mut decoder, &mut out) {
        Ok(_) => Some(out),
        Err(_) => None,
    }
}

/// Relies on hex::encode: two lower-case hexadecimal digits per byte, high
/// nibble first, taken here as the ASCII bytes of the returned string.
#[verifier::external_body]
pub(crate) fn hex_bytes(b: &[u8]) -> (r: Vec<u8>)
    ensures
        r@ == hex_spec(b@),
{
    hex::encode(b).into_bytes()
}

/// The text that `String::from_utf8_lossy` makes of a byte string.
pub uninterp spec fn lossy_text(b: Seq<u8>) -> Seq<char>;

/// Relies on String::from_utf8_lossy: valid UTF-8 is decoded unchanged, each
/// invalid sequence becomes U+FFFD; the result depends on the bytes alone.
#[verifier::external_body]
pub(crate) fn to_text(b: &[u8]) -> (r: String)
    ensures
        r@ == lossy_text(b@),
        vstd::utf8::valid_utf8(b@) ==> r@ == vstd::utf8::decode_utf8(b@),
{
    String::from_utf8_lossy(b).into_owned()
}

} // verus!
