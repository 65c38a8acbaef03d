//! Byte-level image decoding.
//!
//! The driver reads the file; this module turns the bytes into a
//! [`CacheEntry`] whose bitmap is always 4-channel RGBA, whatever the source
//! layout was.  Parsing the container format (PNG, JPEG, ...) is delegated
//! to the `image` crate behind one trusted wrapper; the normalisation of
//! the raw samples to premultiplied RGBA is verified.

use vstd::prelude::*;
use vstd::arithmetic::div_mod::{lemma_div_multiples_vanish, lemma_mod_multiples_basic};

use crate::cache::{CacheEntry, DecodedImage, ImageMetadata, entry_wf};
use crate::utils::{
    add_alpha_channel, alpha_padded, gray_expanded, gray_to_rgba, is_valid_file, premultiplied,
    premultiply_by_alpha, valid_image_path,
};

verus! {

/// Why a load request could not produce a cache entry.  Both are terminal
/// for the request: the caller logs and drops it, no retry is attempted.
#[derive(Clone, Copy, PartialEq, Eq, Structural, Debug)]
pub enum DecodeError {
    /// The file could not be read (missing, permissions).
    UnreadableFile,
    /// The extension is not in the supported set, or the decoder could not
    /// parse or represent the contents.
    UnsupportedFormat,
}

/// Channel layout of a decoded bitmap, as far as the cache cares: 8-bit
/// grayscale, RGB and RGBA are normalised; anything else is refused.
#[derive(Clone, Copy, PartialEq, Eq, Structural, Debug)]
pub enum ColorKind {
    Gray8,
    Rgb8,
    Rgba8,
    Other,
}

/// Whether the byte buffer parses as an image.
pub uninterp spec fn decode_ok(bytes: Seq<u8>) -> bool;

/// The pixel width of the image decoded from the bytes.
pub uninterp spec fn decode_width(bytes: Seq<u8>) -> u32;

/// The pixel height of the image decoded from the bytes.
pub uninterp spec fn decode_height(bytes: Seq<u8>) -> u32;

/// The channel layout of the image decoded from the bytes.
pub uninterp spec fn decode_kind(bytes: Seq<u8>) -> ColorKind;

/// The raw samples of the image decoded from the bytes, row-major, one byte
/// per channel.
pub uninterp spec fn decode_pixels(bytes: Seq<u8>) -> Seq<u8>;

/// Relies on `image::load_from_memory` and the `DynamicImage` accessors
/// `width`, `height`, `color` and `into_bytes`: decoding an in-memory byte
/// buffer is a pure function of the bytes alone, and the decoded buffer
/// holds exactly `width * height * channels` one-byte samples for the 8-bit
/// layouts (an `ImageBuffer` invariant).
#[verifier::external_body]
fn decode_bytes(bytes: &Vec<u8>) -> (r: Option<(u32, u32, ColorKind, Vec<u8>)>)
    ensures
        r is Some <==> decode_ok(bytes@),
        r matches Some(t) ==> t.0 == decode_width(bytes@) && t.1 == decode_height(bytes@) && t.2
            == decode_kind(bytes@) && t.3@ == decode_pixels(bytes@),
        r matches Some(t) ==> (t.2 == ColorKind::Rgba8 ==> t.3@.len() == 4 * t.0 * t.1),
        r matches Some(t) ==> (t.2 == ColorKind::Rgb8 ==> t.3@.len() == 3 * t.0 * t.1),
        r matches Some(t) ==> (t.2 == ColorKind::Gray8 ==> t.3@.len() == 1 * t.0 * t.1),
{
    match image::load_from_memory(bytes.as_slice()) {
        Ok(img) => {
            let kind = match img.color() {
                image::ColorType::L8 => ColorKind::Gray8,
                image::ColorType::Rgb8 => ColorKind::Rgb8,
                image::ColorType::Rgba8 => ColorKind::Rgba8,
                _ => ColorKind::Other,
            };
            Some((img.width(), img.height(), kind, img.into_bytes()))
        },
        Err(_) => None,
    }
}

/// Whether the cache can represent a decoded layout.
pub open spec fn supported_kind(k: ColorKind) -> bool {
    k != ColorKind::Other
}

/// The 4-channel RGBA bitmap that a decoded sample buffer normalises to:
/// RGBA is premultiplied by its alpha, RGB is padded with opaque alpha,
/// grayscale is replicated into opaque RGBA.
pub open spec fn normalized_rgba(kind: ColorKind, p: Seq<u8>) -> Seq<u8> {
    match kind {
        ColorKind::Rgba8 => premultiplied(p),
        ColorKind::Rgb8 => alpha_padded(p),
        ColorKind::Gray8 => gray_expanded(p),
        ColorKind::Other => p,
    }
}

/// Whether decoding succeeds for a path and the bytes read from it: the
/// extension must be supported, the bytes must be present and parse, and
/// the layout must be one the cache can normalise.
pub open spec fn decode_accepts(path: Seq<char>, bytes: Option<Seq<u8>>) -> bool {
    &&& valid_image_path(path)
    &&& bytes is Some
    &&& decode_ok(bytes.unwrap())
    &&& supported_kind(decode_kind(bytes.unwrap()))
}

/// Decode one image: `path` is the cache key the request was submitted
/// under, `bytes` the contents read from that path (`None` if the read
/// failed).  On success the entry's bitmap is the normalised RGBA form of
/// the decoded samples; every failure is reported, never silently dropped.
pub fn decode_image(path: &String, bytes: Option<&Vec<u8>>) -> (r: Result<CacheEntry, DecodeError>)
    ensures
        r is Ok <==> decode_accepts(path@, spec_bytes_view(bytes)),
        !valid_image_path(path@) ==> r == Err::<CacheEntry, DecodeError>(
            DecodeError::UnsupportedFormat,
        ),
        valid_image_path(path@) && bytes is None ==> r == Err::<CacheEntry, DecodeError>(
            DecodeError::UnreadableFile,
        ),
        valid_image_path(path@) && bytes is Some && !(r is Ok) ==> r == Err::<
            CacheEntry,
            DecodeError,
        >(DecodeError::UnsupportedFormat),
        r matches Ok(e) ==> (bytes matches Some(b) && {
            &&& e.key@ == path@
            &&& entry_wf(e)
            &&& e.bitmap.width == decode_width(b@)
            &&& e.bitmap.height == decode_height(b@)
            &&& e.bitmap.pixels@ == normalized_rgba(decode_kind(b@), decode_pixels(b@))
        }),
{
    if !is_valid_file(path.as_str()) {
        return Err(DecodeError::UnsupportedFormat);
    }
    let data = match bytes {
        Some(b) => b,
        None => {
            return Err(DecodeError::UnreadableFile);
        },
    };
    match decode_bytes(data) {
        Some((width, height, kind, pixels)) => {
            match kind {
                ColorKind::Rgba8 => {
                    proof {
                        let w = width as int;
                        let h = height as int;
                        assert(4 * w * h == (w * h) * 4) by (nonlinear_arith);
                        lemma_mod_multiples_basic(w * h, 4);
                    }
                    let rgba = premultiply_by_alpha(&pixels);
                    Ok(build_entry(path, width, height, rgba))
                },
                ColorKind::Rgb8 => {
                    proof {
                        let w = width as int;
                        let h = height as int;
                        assert(3 * w * h == (w * h) * 3) by (nonlinear_arith);
                        lemma_mod_multiples_basic(w * h, 3);
                        lemma_div_multiples_vanish(w * h, 3);
                        assert((w * h) * 4 == 4 * w * h) by (nonlinear_arith);
                    }
                    let rgba = add_alpha_channel(&pixels);
                    Ok(build_entry(path, width, height, rgba))
                },
                ColorKind::Gray8 => {
                    proof {
                        let w = width as int;
                        let h = height as int;
                        assert(1 * w * h == w * h) by (nonlinear_arith);
                        assert((w * h) * 4 == 4 * w * h) by (nonlinear_arith);
                    }
                    let rgba = gray_to_rgba(&pixels);
                    Ok(build_entry(path, width, height, rgba))
                },
                ColorKind::Other => Err(DecodeError::UnsupportedFormat),
            }
        },
        None => Err(DecodeError::UnsupportedFormat),
    }
}

/// The view of an optional byte buffer.
pub open spec fn spec_bytes_view(bytes: Option<&Vec<u8>>) -> Option<Seq<u8>> {
    match bytes {
        Some(b) => Some(b@),
        None => None,
    }
}

fn build_entry(path: &String, width: u32, height: u32, rgba: Vec<u8>) -> (e: CacheEntry)
    requires
        rgba@.len() == 4 * width * height,
    ensures
        entry_wf(e),
        e.key@ == path@,
        e.bitmap.width == width,
        e.bitmap.height == height,
        e.bitmap.pixels == rgba,
{
    CacheEntry {
        key: path.clone(),
        bitmap: DecodedImage { width, height, pixels: rgba },
        metadata: ImageMetadata { width, height, source_path: path.clone() },
    }
}

} // verus!
