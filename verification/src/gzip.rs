//! Gzip-compressed input, unpacked with `flate2`.

use flate2::bufread::GzDecoder;
use std::io::Read;
use vstd::prelude::*;

verus! {

/// Whether `flate2`'s `GzDecoder` finds a valid gzip header at the start of `data`.
pub uninterp spec fn gzip_header_found(data: Seq<u8>) -> bool;

/// What reading a `GzDecoder` over `data` to its end yields: the bytes it
/// produced, and the text of the error it stopped on, if it did not reach the
/// end of the stream cleanly.
pub uninterp spec fn gzip_inflate(data: Seq<u8>) -> (Seq<u8>, Option<Seq<char>>);

/// An optional message, taken by its characters.
pub open spec fn message_view(m: Option<String>) -> Option<Seq<char>> {
    match m {
        Some(s) => Some(s@),
        None => None,
    }
}

/// `GzDecoder::new(data).header().is_some()` of `flate2`: the decoder parses the
/// header when it is made. Stated: the answer is a function of the bytes, and
/// (as the header parser's source shows) a found header starts with the magic
/// bytes 0x1f 0x8b and the deflate method byte 8, in at least ten bytes.
#[verifier::external_body]
fn has_gzip_header(data: &[u8]) -> (b: bool)
    ensures
        b == gzip_header_found(data@),
        b ==> data@.len() >= 10 && data@[0] == 0x1f && data@[1] == 0x8b && data@[2] == 8,
{
    GzDecoder::new(data).header().is_some()
}

/// `GzDecoder::new(data).read_to_end(..)` of `flate2` and std: the decompressed
/// bytes read before the stream ended or failed (std's `read_to_end` keeps
/// what it read before an error), and the `Display` text of the I/O error
/// it stopped on, if any. Not stated: what the bytes and the text are; they
/// are named by [`gzip_inflate`].
#[verifier::external_body]
fn inflate_gzip(data: &[u8]) -> (r: (Vec<u8>, Option<String>))
    ensures
        (r.0@, message_view(r.1)) == gzip_inflate(data@),
{
    let mut out = Vec::new();
    let failure = match GzDecoder::new(data).read_to_end(&mut out) {
        Ok(_) => None,
        Err(e) => Some(e.to_string()),
    };
    (out, failure)
}

/// The decompressed contents of a gzip file.
pub struct Inflated {
    /// The bytes the decoder produced.
    pub bytes: Vec<u8>,
    /// The decoder's error text when the stream did not end cleanly (broken
    /// off, corrupt, or with a wrong checksum); `None` when it did.
    pub failure: Option<String>,
}

/// Unpacks `data` if it is gzip-compressed.
///
/// # Errors
///
/// Hands `data` back unchanged when it does not start with a valid gzip header.
pub fn decompress_file(data: Vec<u8>) -> (r: Result<Inflated, Vec<u8>>)
    ensures
        r is Ok <==> gzip_header_found(data@),
        r matches Ok(x) ==> (x.bytes@, message_view(x.failure)) == gzip_inflate(data@),
        r matches Err(d) ==> d@ == data@,
        r is Ok ==> data@.len() >= 10 && data@[0] == 0x1f && data@[1] == 0x8b && data@[2] == 8,
{
    if has_gzip_header(data.as_slice()) {
        let (bytes, failure) = inflate_gzip(data.as_slice());
        Ok(Inflated { bytes, failure })
    } else {
        Err(data)
    }
}

} // verus!
