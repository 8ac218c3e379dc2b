//! Compact text encoding: Brotli compression, then unpadded standard Base64,
//! behind a `BR-` tag.
use std::io::Write;
use base64::Engine;
use vstd::prelude::*;
use vstd::string::{StrSliceExecFns, StringExecFns};

verus! {

/// The Brotli stream that a compressor with the given buffer size, quality and
/// window makes of the UTF-8 bytes of a text.
pub uninterp spec fn brotli_compressed(text: Seq<char>, buffer_size: usize, quality: u32, lgwin: u32) -> Seq<u8>;

/// The data that a Brotli stream decompresses to, or `None` where it is no
/// complete, well-formed stream.
pub uninterp spec fn brotli_decompressed(data: Seq<u8>) -> Option<Seq<u8>>;

/// The unpadded standard Base64 text of some bytes.
pub uninterp spec fn base64_no_pad_of(data: Seq<u8>) -> Seq<char>;

/// The bytes that an unpadded standard Base64 text spells, or `None` where it is
/// not such a text.
pub uninterp spec fn base64_no_pad_decoded(text: Seq<char>) -> Option<Seq<u8>>;

/// The text that some bytes read as UTF-8 give, each invalid sequence replaced
/// by U+FFFD.
pub uninterp spec fn utf8_lossy_of(data: Seq<u8>) -> Seq<char>;

/// Relies on `brotli::CompressorWriter` over a `Vec<u8>`: the compressed stream of
/// the text's bytes, or the text of the writer's error.
#[verifier::external_body]
fn compress(text: &str, buffer_size: usize, quality: u32, lgwin: u32) -> (r: Result<Vec<u8>, String>)
    ensures
        r matches Ok(v) ==> v@ == brotli_compressed(text@, buffer_size, quality, lgwin),
{
    let mut writer = brotli::CompressorWriter::new(Vec::new(), buffer_size, quality, lgwin);
    match writer.write_all(text.as_bytes()) {
        Ok(()) => Ok(writer.into_inner()),
        Err(err) => Err(err.to_string()),
    }
}

/// Relies on `brotli::DecompressorWriter` over a `Vec<u8>`: the decompressed data;
/// `Err(Some(text))` where writing the stream failed, `Err(None)` where the stream
/// ended unfinished.
#[verifier::external_body]
fn decompress(data: &[u8], buffer_size: usize) -> (r: Result<Vec<u8>, Option<String>>)
    ensures
        r is Ok <==> brotli_decompressed(data@) is Some,
        r matches Ok(v) ==> brotli_decompressed(data@) == Some(v@),
{
    let mut writer = brotli::DecompressorWriter::new(Vec::new(), buffer_size);
    if let Err(err) = writer.write_all(data) {
        return Err(Some(err.to_string()));
    }
    writer.into_inner().map_err(|_| None)
}

/// Relies on base64's `STANDARD_NO_PAD` engine, `Engine::encode`.
#[verifier::external_body]
fn base64_encode(data: &[u8]) -> (r: String)
    ensures
        r@ == base64_no_pad_of(data@),
{
    base64::engine::general_purpose::STANDARD_NO_PAD.encode(data)
}

/// Relies on base64's `STANDARD_NO_PAD` engine, `Engine::decode`: the bytes, or
/// the text of the decoder's error.
#[verifier::external_body]
fn base64_decode(text: &str) -> (r: Result<Vec<u8>, String>)
    ensures
        r is Ok <==> base64_no_pad_decoded(text@) is Some,
        r matches Ok(v) ==> base64_no_pad_decoded(text@) == Some(v@),
{
    base64::engine::general_purpose::STANDARD_NO_PAD.decode(text).map_err(|err| err.to_string())
}

/// Relies on `String::from_utf8_lossy`.
#[verifier::external_body]
fn utf8_lossy(data: &[u8]) -> (r: String)
    ensures
        r@ == utf8_lossy_of(data@),
{
    String::from_utf8_lossy(data).into_owned()
}

pub const COMPRESS_BUFFER: usize = 4096;

pub const COMPRESS_QUALITY: u32 = 11;

pub const COMPRESS_WINDOW: u32 = 22;

/// The tag in front of every encoded text.
pub open spec fn tag() -> Seq<char> {
    seq!['B', 'R', '-']
}

/// What `encode_text` makes of a text.
pub open spec fn encoded_form(text: Seq<char>) -> Seq<char> {
    tag() + base64_no_pad_of(
        brotli_compressed(text, COMPRESS_BUFFER, COMPRESS_QUALITY, COMPRESS_WINDOW),
    )
}

/// `prefix` followed by `rest`.
fn joined(prefix: &str, rest: &str) -> (r: String)
    ensures
        r@ == prefix@ + rest@,
{
    let mut s = String::from_str(prefix);
    s.append(rest);
    s
}

/// Encodes a text: Brotli compression (quality 11, window 22), unpadded
/// standard Base64, and the `BR-` tag in front.
pub fn encode_text(text: String) -> (r: Result<String, String>)
    ensures
        r matches Ok(s) ==> s@ == encoded_form(text@),
        r matches Err(e) ==> e@.len() >= 25 && e@.take(25) == "Failed to compress text: "@,
{
    match compress(text.as_str(), COMPRESS_BUFFER, COMPRESS_QUALITY, COMPRESS_WINDOW) {
        Ok(buffer) => {
            let encoded = base64_encode(buffer.as_slice());
            proof {
                reveal_strlit("BR-");
            }
            let r = joined("BR-", encoded.as_str());
            assert(r@ =~= encoded_form(text@));
            Ok(r)
        },
        Err(err) => {
            proof {
                reveal_strlit("Failed to compress text: ");
            }
            let e = joined("Failed to compress text: ", err.as_str());
            assert(e@.take(25) =~= "Failed to compress text: "@);
            Err(e)
        },
    }
}

/// How `decode_text` reads a text: `None` where it lacks the tag or the rest is
/// no unpadded Base64, `Some(None)` where the bytes are no complete Brotli
/// stream, and `Some(Some(t))` with the decoded text otherwise.
pub open spec fn decoded_form(text: Seq<char>) -> Option<Option<Seq<char>>> {
    if text.len() >= 3 && text.take(3) == tag() {
        match base64_no_pad_decoded(text.skip(3)) {
            None => None,
            Some(bytes) => match brotli_decompressed(bytes) {
                None => Some(None),
                Some(data) => Some(Some(utf8_lossy_of(data))),
            },
        }
    } else {
        None
    }
}

/// Decodes a text that `encode_text` made: checks and strips the `BR-` tag,
/// decodes the Base64, decompresses, and reads the bytes as UTF-8 (invalid
/// sequences replaced).
pub fn decode_text(text: String) -> (r: Result<String, String>)
    ensures
        !(text@.len() >= 3 && text@.take(3) == tag()) ==> (r matches Err(e) && e@
            == "Invalid encoded text format"@),
        text@.len() >= 3 && text@.take(3) == tag() ==> {
            &&& (r is Ok <==> decoded_form(text@) matches Some(Some(_)))
            &&& (r matches Ok(s) ==> decoded_form(text@) == Some(Some(s@)))
            &&& base64_no_pad_decoded(text@.skip(3)) is None ==> (r matches Err(e) && e@.len()
                >= 25 && e@.take(25) == "Failed to decode Base64: "@)
            &&& decoded_form(text@) == Some(None::<Seq<char>>) ==> (r matches Err(e) && e@.len()
                >= 25 && e@.take(25) == "Failed to decompress text"@)
        },
{
    let n = text.as_str().unicode_len();
    let tagged = n >= 3 && text.as_str().get_char(0) == 'B' && text.as_str().get_char(1) == 'R'
        && text.as_str().get_char(2) == '-';
    proof {
        if tagged {
            assert(text@.take(3) =~= tag());
        } else if n >= 3 {
            if text@.take(3) == tag() {
                assert(text@[0] == text@.take(3)[0]);
                assert(text@[1] == text@.take(3)[1]);
                assert(text@[2] == text@.take(3)[2]);
            }
        }
        reveal_strlit("Invalid encoded text format");
        reveal_strlit("Failed to decode Base64: ");
        reveal_strlit("Failed to decompress text: ");
        reveal_strlit("Failed to decompress text");
    }
    if !tagged {
        return Err(String::from_str("Invalid encoded text format"));
    }
    let stripped = text.as_str().substring_char(3, n);
    assert(stripped@ =~= text@.skip(3));
    let compressed = match base64_decode(stripped) {
        Ok(bytes) => bytes,
        Err(err) => {
            let e = joined("Failed to decode Base64: ", err.as_str());
            assert(e@.take(25) =~= "Failed to decode Base64: "@);
            return Err(e);
        },
    };
    match decompress(compressed.as_slice(), COMPRESS_BUFFER) {
        Ok(data) => Ok(utf8_lossy(data.as_slice())),
        Err(Some(err)) => {
            let e = joined("Failed to decompress text: ", err.as_str());
            assert(e@.take(25) =~= "Failed to decompress text"@);
            Err(e)
        },
        Err(None) => {
            let e = String::from_str("Failed to decompress text");
            assert(e@.take(25) =~= "Failed to decompress text"@);
            Err(e)
        },
    }
}

} // verus!
