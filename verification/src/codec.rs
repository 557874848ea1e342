use vstd::prelude::*;
use base64::Engine;

verus! {

/// The JPEG file that the `image` crate writes at the given quality for the
/// picture it reads from `data`, where it can read one and write it.
pub uninterp spec fn jpeg_recoded(data: Seq<u8>, quality: u8) -> Option<Seq<u8>>;

/// The base64 text of `data`, in the standard alphabet and with padding.
pub uninterp spec fn base64_text(data: Seq<u8>) -> Seq<char>;

/// A text as the standard library's `Debug` formatting shows it: between
/// double quotes, and with escapes.
pub uninterp spec fn debug_quoted(text: Seq<char>) -> Seq<char>;

/// Decodes a picture with `image::load_from_memory`, which guesses the format
/// from the first bytes, and encodes it with `DynamicImage::write_to` as
/// `ImageOutputFormat::Jpeg(quality)`; the encoder takes a quality outside
/// 1 to 100 as the nearest of the two. Either step can fail, and `None` says
/// that one did. The result is determined by the bytes and the quality.
#[verifier::external_body]
pub(crate) fn recode_as_jpeg(data: &[u8], quality: u8) -> (jpeg: Option<Vec<u8>>)
    ensures
        match jpeg {
            Some(bytes) => jpeg_recoded(data@, quality) == Some(bytes@),
            None => jpeg_recoded(data@, quality) is None,
        },
{
    let picture = image::load_from_memory(data).ok()?;
    let mut output = Vec::new();
    let format = image::ImageOutputFormat::Jpeg(quality);
    picture.write_to(&mut std::io::Cursor::new(&mut output), format).ok()?;
    Some(output)
}

/// Encodes bytes with `base64::engine::general_purpose::STANDARD.encode`.
/// The crate computes the length of the text first and panics where that
/// overflows `usize`, which no slice is long enough for.
#[verifier::external_body]
pub(crate) fn encode_base64(data: &[u8]) -> (text: String)
    ensures
        text@ == base64_text(data@),
{
    base64::engine::general_purpose::STANDARD.encode(data)
}

/// Formats a text with `{:?}`.
#[verifier::external_body]
pub(crate) fn quote_debug(text: &str) -> (quoted: String)
    ensures
        quoted@ == debug_quoted(text@),
{
    format!("{:?}", text)
}

} // verus!
