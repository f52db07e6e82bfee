//! Raster analysis on integer label maps: connected faces, speckle removal, the planar map
//! of shared boundaries, and the decisions the tracer makes about its intake.
//!
//! Everything here is about *which pixel belongs to what*: the label map a palette
//! produced, the faces it falls into, the boundaries those faces share, and the few facts
//! about the input file that decide how the palette treats it.
use vstd::prelude::*;

pub mod components;
pub mod fast;
pub mod forest;
pub mod gradient;
pub mod grid;
pub mod ink_ideas;
pub mod intake;
pub mod occlusion;
pub mod pair_keys;
pub mod planar;
pub mod regions;
pub mod regroup;
pub mod saddle;
pub mod slivers;

pub use regions::{despeckle, split_components};

verus! {

/// Error loading or decoding a raster image.
#[derive(Debug)]
pub enum TraceError {
    /// The file could not be read.
    Io(String),
    /// The bytes could not be decoded as a supported image format.
    Decode(String),
}

/// The container formats whose codec the tracer needs to know about, as
/// `image::guess_format` names them.
#[derive(Debug, Clone, Copy, PartialEq, Eq, Structural)]
pub enum ContainerFormat {
    Jpeg,
    WebP,
    Png,
    Gif,
    Bmp,
    Tiff,
    /// A format `image` recognises that is none of the above.
    Other,
}

/// `bytes` begins with `sig`.
pub open spec fn begins(bytes: Seq<u8>, sig: Seq<u8>) -> bool {
    bytes.len() >= sig.len() && bytes.subrange(0, sig.len() as int) == sig
}

/// Whether `bytes` begins with `RIFF`, four bytes of any value, and `WEBP`.
pub open spec fn is_webp(bytes: Seq<u8>) -> bool {
    begins(bytes, seq![0x52u8, 0x49u8, 0x46u8, 0x46u8]) && bytes.len() >= 12 && bytes.subrange(8, 12) == seq![
        0x57u8,
        0x45u8,
        0x42u8,
        0x50u8,
    ]
}

/// Whether `bytes` begins with two zero bytes, two bytes of any value, and `ftypavif`.
pub open spec fn is_avif(bytes: Seq<u8>) -> bool {
    bytes.len() >= 12 && bytes[0] == 0u8 && bytes[1] == 0u8 && bytes.subrange(4, 12) == seq![
        0x66u8,
        0x74u8,
        0x79u8,
        0x70u8,
        0x61u8,
        0x76u8,
        0x69u8,
        0x66u8,
    ]
}

/// Whether `bytes` begins with `P` and a digit from `1` to `7`: the netpbm family.
pub open spec fn is_pnm(bytes: Seq<u8>) -> bool {
    bytes.len() >= 2 && bytes[0] == 0x50u8 && 0x31u8 <= bytes[1] <= 0x37u8
}

/// The format a buffer's leading bytes name, by the magic-byte signatures `image` knows,
/// tried in this order, the first that matches deciding: PNG's eight-byte signature,
/// JPEG's `FF D8 FF`, `GIF89a` and `GIF87a`, a WebP RIFF header, TIFF's `MM\0*` and
/// `II*\0`, DDS, BMP's `BM`, ICO, Radiance HDR, AVIF, OpenEXR, QOI, netpbm and farbfeld;
/// the formats the tracer does not tell apart are [`ContainerFormat::Other`], and a buffer
/// that begins with none of them is `None`.
pub open spec fn signature_format(bytes: Seq<u8>) -> Option<ContainerFormat> {
    if begins(bytes, seq![0x89u8, 0x50u8, 0x4Eu8, 0x47u8, 0x0Du8, 0x0Au8, 0x1Au8, 0x0Au8]) {
        Some(ContainerFormat::Png)
    } else if begins(bytes, seq![0xFFu8, 0xD8u8, 0xFFu8]) {
        Some(ContainerFormat::Jpeg)
    } else if begins(bytes, seq![0x47u8, 0x49u8, 0x46u8, 0x38u8, 0x39u8, 0x61u8]) || begins(
        bytes,
        seq![0x47u8, 0x49u8, 0x46u8, 0x38u8, 0x37u8, 0x61u8],
    ) {
        Some(ContainerFormat::Gif)
    } else if is_webp(bytes) {
        Some(ContainerFormat::WebP)
    } else if begins(bytes, seq![0x4Du8, 0x4Du8, 0x00u8, 0x2Au8]) || begins(
        bytes,
        seq![0x49u8, 0x49u8, 0x2Au8, 0x00u8],
    ) {
        Some(ContainerFormat::Tiff)
    } else if begins(bytes, seq![0x44u8, 0x44u8, 0x53u8, 0x20u8]) {
        Some(ContainerFormat::Other)
    } else if begins(bytes, seq![0x42u8, 0x4Du8]) {
        Some(ContainerFormat::Bmp)
    } else if begins(bytes, seq![0x00u8, 0x00u8, 0x01u8, 0x00u8]) || begins(
        bytes,
        seq![0x23u8, 0x3Fu8, 0x52u8, 0x41u8, 0x44u8, 0x49u8, 0x41u8, 0x4Eu8, 0x43u8, 0x45u8],
    ) || is_avif(bytes) || begins(bytes, seq![0x76u8, 0x2Fu8, 0x31u8, 0x01u8]) || begins(
        bytes,
        seq![0x71u8, 0x6Fu8, 0x69u8, 0x66u8],
    ) || is_pnm(bytes) || begins(bytes, seq![0x66u8, 0x61u8, 0x72u8, 0x62u8, 0x66u8, 0x65u8, 0x6Cu8, 0x64u8]) {
        Some(ContainerFormat::Other)
    } else {
        None
    }
}

/// `image::guess_format`, which compares the buffer's leading bytes with each entry of a
/// fixed table of magic-byte signatures, in order, and answers with the first that
/// matches, or an error when none does. Claimed: the answer is [`signature_format`] of the
/// bytes, the error being reported as `None` and the formats the tracer does not tell
/// apart as [`ContainerFormat::Other`].
#[verifier::external_body]
fn guess_format(bytes: &[u8]) -> (res: Option<ContainerFormat>)
    ensures
        res == signature_format(bytes@),
{
    match image::guess_format(bytes) {
        Ok(image::ImageFormat::Jpeg) => Some(ContainerFormat::Jpeg),
        Ok(image::ImageFormat::WebP) => Some(ContainerFormat::WebP),
        Ok(image::ImageFormat::Png) => Some(ContainerFormat::Png),
        Ok(image::ImageFormat::Gif) => Some(ContainerFormat::Gif),
        Ok(image::ImageFormat::Bmp) => Some(ContainerFormat::Bmp),
        Ok(image::ImageFormat::Tiff) => Some(ContainerFormat::Tiff),
        Ok(_) => Some(ContainerFormat::Other),
        Err(_) => None,
    }
}

/// Whether `bytes[12..16]` spells `tag`.
pub open spec fn chunk_is(bytes: Seq<u8>, tag: Seq<u8>) -> bool {
    bytes.len() >= 16 && bytes.subrange(12, 16) == tag
}

/// Whether a file of format `format` was written by a lossy codec: `Some(true)` for JPEG
/// and for a WebP whose first RIFF chunk is `VP8 `, `Some(false)` for a `VP8L` WebP and for
/// PNG, GIF, BMP and TIFF, and `None` when that cannot be told.
pub open spec fn lossy_of(format: Option<ContainerFormat>, bytes: Seq<u8>) -> Option<bool> {
    match format {
        None => None,
        Some(ContainerFormat::Jpeg) => Some(true),
        Some(ContainerFormat::WebP) => if chunk_is(bytes, seq![86u8, 80u8, 56u8, 32u8]) {
            Some(true)
        } else if chunk_is(bytes, seq![86u8, 80u8, 56u8, 76u8]) {
            Some(false)
        } else {
            None
        },
        Some(ContainerFormat::Png) | Some(ContainerFormat::Gif) | Some(ContainerFormat::Bmp) | Some(
            ContainerFormat::Tiff,
        ) => Some(false),
        Some(ContainerFormat::Other) => None,
    }
}

/// Whether `bytes[12..16]` is the four bytes `a b c d`.
fn chunk_matches(bytes: &[u8], a: u8, b: u8, c: u8, d: u8) -> (res: bool)
    ensures
        res == chunk_is(bytes@, seq![a, b, c, d]),
{
    if bytes.len() < 16 {
        return false;
    }
    let r = bytes[12] == a && bytes[13] == b && bytes[14] == c && bytes[15] == d;
    proof {
        if r {
            assert(bytes@.subrange(12, 16) =~= seq![a, b, c, d]);
        } else {
            assert(bytes@.subrange(12, 16)[0] == bytes@[12]);
            assert(bytes@.subrange(12, 16)[1] == bytes@[13]);
            assert(bytes@.subrange(12, 16)[2] == bytes@[14]);
            assert(bytes@.subrange(12, 16)[3] == bytes@[15]);
        }
    }
    r
}

/// The lossiness of a file whose container `image` read as `format`; see [`lossy_of`].
///
/// WebP is both codecs in one container. The RIFF chunk after the 12-byte header says
/// which: `VP8 ` (with the trailing space) is lossy, `VP8L` is lossless, and `VP8X` is the
/// extended form whose sub-chunks would have to be walked -- that one is unknown rather
/// than guessed.
pub fn lossy_from_format(format: Option<ContainerFormat>, bytes: &[u8]) -> (res: Option<bool>)
    ensures
        res == lossy_of(format, bytes@),
{
    match format {
        None => None,
        Some(ContainerFormat::Jpeg) => Some(true),
        Some(ContainerFormat::WebP) => {
            if chunk_matches(bytes, 86, 80, 56, 32) {
                Some(true)
            } else if chunk_matches(bytes, 86, 80, 56, 76) {
                Some(false)
            } else {
                None
            }
        },
        Some(ContainerFormat::Png) | Some(ContainerFormat::Gif) | Some(ContainerFormat::Bmp) | Some(
            ContainerFormat::Tiff,
        ) => Some(false),
        Some(ContainerFormat::Other) => None,
    }
}

/// Was this file written by a lossy codec?
///
/// This is a fact about the container, not a statistic about the pixels: a lossy codec
/// rings flat regions without widening an edge, and the pixels alone cannot tell that from
/// a clean 8-bit ramp. So the file is asked instead, where the answer is exact. `None` when
/// the format cannot be determined; the caller treats that as "not known to be lossy".
pub fn lossy_container(bytes: &[u8]) -> (res: Option<bool>)
    ensures
        res == lossy_of(signature_format(bytes@), bytes@),
{
    let format = guess_format(bytes);
    lossy_from_format(format, bytes)
}

/// What the container says of lossiness, by signature: a JPEG is lossy and a PNG is not;
/// a WebP is lossy when its first chunk is `VP8 `, lossless when it is `VP8L`, and unknown
/// otherwise (`VP8X` among them).
pub proof fn lemma_signatures_decide_lossiness(bytes: Seq<u8>)
    ensures
        begins(bytes, seq![0xFFu8, 0xD8u8, 0xFFu8]) ==> lossy_of(signature_format(bytes), bytes) == Some(true),
        begins(bytes, seq![0x89u8, 0x50u8, 0x4Eu8, 0x47u8, 0x0Du8, 0x0Au8, 0x1Au8, 0x0Au8]) ==> lossy_of(
            signature_format(bytes),
            bytes,
        ) == Some(false),
        signature_format(bytes) == Some(ContainerFormat::WebP) ==> lossy_of(signature_format(bytes), bytes) == if chunk_is(
            bytes,
            seq![86u8, 80u8, 56u8, 32u8],
        ) {
            Some(true)
        } else if chunk_is(bytes, seq![86u8, 80u8, 56u8, 76u8]) {
            Some(false)
        } else {
            None::<bool>
        },
{
    if begins(bytes, seq![0xFFu8, 0xD8u8, 0xFFu8]) {
        assert(bytes[0] == 0xFFu8) by {
            assert(bytes.subrange(0, 3)[0] == bytes[0]);
        }
        if begins(bytes, seq![0x89u8, 0x50u8, 0x4Eu8, 0x47u8, 0x0Du8, 0x0Au8, 0x1Au8, 0x0Au8]) {
            assert(bytes.subrange(0, 8)[0] == bytes[0]);
        }
    }
}

/// A decoded raster: straight 8-bit RGBA, row-major, the `width * height` pixels in the
/// first `4 * width * height` bytes of `data`.
pub struct Rgba8 {
    pub width: u32,
    pub height: u32,
    pub data: Vec<u8>,
}

/// `image::load_from_memory`, then `DynamicImage::to_rgba8` on what it decoded, and the
/// RGBA buffer taken out with `into_raw`. Claimed: a decoded buffer holds at least four
/// bytes per pixel (every `ImageBuffer` is made with, or checked to have, that many).
/// Not stated: which buffers decode and to what pixels, nor the error's text. The answer
/// is no function of the bytes alone: `image` first asks the format-detection and
/// decoding hooks registered in the process, which any code linked in may add to.
#[verifier::external_body]
fn decode_rgba8(bytes: &[u8]) -> (res: Result<(u32, u32, Vec<u8>), String>)
    ensures
        res matches Ok((w, h, d)) ==> d@.len() >= 4 * w * h,
{
    match image::load_from_memory(bytes) {
        Ok(img) => {
            let rgba = img.to_rgba8();
            let (w, h) = (rgba.width(), rgba.height());
            Ok((w, h, rgba.into_raw()))
        },
        Err(e) => Err(e.to_string()),
    }
}

/// A decode result as the tracer reports it: the raster, or a `Decode` error carrying the
/// decoder's message.
pub fn rgba8_from_decoded(r: Result<(u32, u32, Vec<u8>), String>) -> (res: Result<Rgba8, TraceError>)
    ensures
        match r {
            Ok((w, h, d)) => res matches Ok(img) && img.width == w && img.height == h && img.data@
                == d@,
            Err(m) => res matches Err(TraceError::Decode(e)) && e@ == m@,
        },
{
    match r {
        Ok((width, height, data)) => Ok(Rgba8 { width, height, data }),
        Err(m) => Err(TraceError::Decode(m)),
    }
}

/// Decode a raster image from in-memory bytes into straight 8-bit RGBA.
///
/// The bytes go to `image` as they are, and its answer is reported by
/// [`rgba8_from_decoded`]: a raster with at least four bytes per pixel, or a `Decode`
/// error carrying the decoder's message.
pub fn decode_image(bytes: &[u8]) -> (res: Result<Rgba8, TraceError>)
    ensures
        match res {
            Ok(img) => img.data@.len() >= 4 * img.width * img.height,
            Err(e) => e is Decode,
        },
{
    let r = decode_rgba8(bytes);
    rgba8_from_decoded(r)
}

/// `image::ImageReader::new` over the bytes, `with_guessed_format`, then
/// `into_dimensions`: the width and height the image's header gives, read without decoding
/// its pixels, or the text of the error either step reports. Nothing is claimed of the
/// answer: which format is guessed, and so what is read, also depends on the
/// format-detection hooks registered in the process.
#[verifier::external_body]
fn header_dimensions(bytes: &[u8]) -> (res: Result<(u32, u32), String>) {
    match image::ImageReader::new(std::io::Cursor::new(bytes)).with_guessed_format() {
        Ok(reader) => match reader.into_dimensions() {
            Ok(dims) => Ok(dims),
            Err(e) => Err(e.to_string()),
        },
        Err(e) => Err(e.to_string()),
    }
}

/// A header read and a decode result as the tracer reports them: a `Decode` error with the
/// header's message when the header could not be read, else one with the decoder's message
/// when the pixels could not be decoded, else the raster as decoded together with the
/// dimensions the header gave.
pub fn with_dims_from_decoded(dims: Result<(u32, u32), String>, r: Result<(u32, u32, Vec<u8>), String>) -> (res:
    Result<(Rgba8, (u32, u32)), TraceError>)
    ensures
        match dims {
            Err(m) => res matches Err(TraceError::Decode(e)) && e@ == m@,
            Ok(wh) => match r {
                Err(m) => res matches Err(TraceError::Decode(e)) && e@ == m@,
                Ok((w, h, d)) => res matches Ok((img, got)) && img.width == w && img.height == h && img.data@
                    == d@ && got == wh,
            },
        },
{
    match dims {
        Err(m) => Err(TraceError::Decode(m)),
        Ok(wh) => match r {
            Err(m) => Err(TraceError::Decode(m)),
            Ok((width, height, data)) => Ok((Rgba8 { width, height, data }, wh)),
        },
    }
}

/// Decode in-memory bytes into straight 8-bit RGBA, returning alongside the dimensions the
/// image's header gives. The header is read first, and the pixels are decoded only when it
/// could be: a header that cannot be read is a `Decode` error with its message, and a
/// decode is reported by [`with_dims_from_decoded`].
pub fn decode_image_with_dims(bytes: &[u8]) -> (res: Result<(Rgba8, (u32, u32)), TraceError>)
    ensures
        match res {
            Ok((img, _)) => img.data@.len() >= 4 * img.width * img.height,
            Err(e) => e is Decode,
        },
{
    match header_dimensions(bytes) {
        Err(m) => Err(TraceError::Decode(m)),
        Ok(wh) => {
            let r = decode_rgba8(bytes);
            with_dims_from_decoded(Ok(wh), r)
        },
    }
}

} // verus!
