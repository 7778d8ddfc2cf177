use vstd::prelude::*;
use vstd::string::StringSliceAdditionalSpecFns;
use vstd::utf8::{decode_utf8, encode_utf8, encode_utf8_decode_utf8, encode_utf8_valid_utf8, valid_utf8};

use std::io::Read;
use std::io::Write;

verus! {

/// What gzip decompression (flate2's `GzDecoder`) yields for `data`:
/// `None` when `data` is not a valid gzip stream.
pub uninterp spec fn gunzip_output(data: Seq<u8>) -> Option<Seq<u8>>;

/// What compressing `data` in memory with flate2's `GzEncoder` at the default
/// level yields: `Some` of the gzip stream, or `None` where the encoder reports
/// an error.  flate2 writes a fixed header (zero mtime, a fixed OS byte), so
/// the result depends on `data` alone.
pub uninterp spec fn gzip_output(data: Seq<u8>) -> Option<Seq<u8>>;

/// What `String::from_utf8_lossy` yields for `data`.
pub uninterp spec fn utf8_lossy(data: Seq<u8>) -> Seq<char>;

/// Decompresses `data` with flate2's `read::GzDecoder` (`read_to_end`).
/// Trusted: `Some` holds the decompressed bytes, `None` stands for the
/// decoder's error (not a valid gzip stream); either way it is the named result.
#[verifier::external_body]
fn gunzip(data: &[u8]) -> (r: Option<Vec<u8>>)
    ensures
        r matches Some(b) ==> gunzip_output(data@) == Some(b@),
        r is None ==> gunzip_output(data@) is None,
{
    let mut decoder = flate2::read::GzDecoder::new(data);
    let mut out = Vec::new();
    match decoder.read_to_end(&mut out) {
        Ok(_) => Some(out),
        Err(_) => None,
    }
}

/// Compresses `data` with flate2's `write::GzEncoder` at `Compression::default()`
/// into memory (`write_all`, then `finish`).
/// Trusted: the result is the named compression result (`None` stands for an
/// error of `write_all` or `finish`), and decompressing the bytes of a success
/// gives `data` back.
#[verifier::external_body]
fn gzip(data: &[u8]) -> (r: Option<Vec<u8>>)
    ensures
        r matches Some(b) ==> gzip_output(data@) == Some(b@),
        r is None ==> gzip_output(data@) is None,
        r matches Some(b) ==> gunzip_output(b@) == Some(data@),
{
    let mut encoder = flate2::write::GzEncoder::new(Vec::new(), flate2::Compression::default());
    match encoder.write_all(data) {
        Ok(()) => {},
        Err(_) => return None,
    }
    match encoder.finish() {
        Ok(bytes) => Some(bytes),
        Err(_) => None,
    }
}

/// `String::from_utf8_lossy(data).into_owned()`.
/// Trusted: the result is the named lossy decoding; for valid UTF-8 it is the
/// decoded text.
#[verifier::external_body]
fn utf8_lossy_string(data: &[u8]) -> (r: String)
    ensures
        r@ == utf8_lossy(data@),
        valid_utf8(data@) ==> r@ == decode_utf8(data@),
{
    String::from_utf8_lossy(data).into_owned()
}

/// Text of `data` with invalid UTF-8 replaced: valid UTF-8 is decoded.
pub open spec fn lossy_text(data: Seq<u8>) -> Seq<char> {
    if valid_utf8(data) {
        decode_utf8(data)
    } else {
        utf8_lossy(data)
    }
}

/// The text of a man page file's bytes: decompressed when they are a gzip
/// stream, as they are otherwise; invalid UTF-8 is replaced.
pub open spec fn man_page_text(data: Seq<u8>) -> Seq<char> {
    match gunzip_output(data) {
        Some(plain) => lossy_text(plain),
        None => lossy_text(data),
    }
}

/// The text of a man page file's bytes `data`, given `plain`, what gzip
/// decompression made of them (`None` when they are no gzip stream): the
/// decompressed bytes if any, else `data`, with invalid UTF-8 replaced.
pub fn man_page_text_from(data: &[u8], plain: Option<Vec<u8>>) -> (r: String)
    ensures
        r@ == lossy_text(
            match plain {
                Some(p) => p@,
                None => data@,
            },
        ),
{
    match plain {
        Some(p) => utf8_lossy_string(p.as_slice()),
        None => utf8_lossy_string(data),
    }
}

/// Decode the contents of a man page file, decompressing it if it is
/// gzip-compressed.  Falls back to the plain bytes when they are not a valid
/// gzip stream (e.g. fish shell's uncompressed man pages).
pub fn decode_man_page(data: &[u8]) -> (r: String)
    ensures
        r@ == man_page_text(data@),
{
    let plain = gunzip(data);
    man_page_text_from(data, plain)
}

/// Compress a man page text (its UTF-8 bytes) as gzip: the result is what the
/// encoder yields for them, `None` where it reports an error.  Reading the
/// bytes back gives the text back: `decode_man_page` of them is `content`.
pub fn encode_man_page(content: &str) -> (r: Option<Vec<u8>>)
    ensures
        match r {
            Some(b) => gzip_output(encode_utf8(content@)) == Some(b@) && man_page_text(b@)
                == content@,
            None => gzip_output(encode_utf8(content@)) is None,
        },
{
    let bytes = content.as_bytes();
    let r = gzip(bytes);
    proof {
        encode_utf8_valid_utf8(content@);
        encode_utf8_decode_utf8(content@);
    }
    match r {
        Some(b) => {
            assert(gunzip_output(b@) == Some(encode_utf8(content@)));
            Some(b)
        },
        None => None,
    }
}

} // verus!
