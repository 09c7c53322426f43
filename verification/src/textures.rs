use vstd::prelude::*;

use crate::artwork::{is_jpeg_spec, is_png_spec, is_jpeg, is_png};
use crate::text::ends_with;

verus! {

/// The largest side, in pixels, of an image the launcher decodes.
pub const MAX_SOURCE_SIDE: u32 = 2048;

/// What a cached texture shows; its key's suffix tells.
#[derive(Clone, Copy, PartialEq, Eq, Structural, Debug)]
pub enum TextureKind {
    Cover,
    Hero,
    Logo,
    Screenshot,
}

pub open spec fn texture_kind_of(key: Seq<char>) -> TextureKind {
    if crate::artwork::ends_seq(key, ":hero"@) {
        TextureKind::Hero
    } else if crate::artwork::ends_seq(key, ":logo"@) {
        TextureKind::Logo
    } else if crate::artwork::ends_seq(key, ":shot"@) {
        TextureKind::Screenshot
    } else {
        TextureKind::Cover
    }
}

pub open spec fn max_side_of(k: TextureKind) -> u32 {
    match k {
        TextureKind::Cover => 256,
        TextureKind::Hero => 960,
        TextureKind::Logo => 320,
        TextureKind::Screenshot => 480,
    }
}

impl TextureKind {
    /// The kind of texture a cache key names (`:hero`, `:logo`, `:shot`, else a cover).
    pub fn from_key(key: &str) -> (k: Self)
        ensures
            k == texture_kind_of(key@),
    {
        if ends_with(key, ":hero") {
            TextureKind::Hero
        } else if ends_with(key, ":logo") {
            TextureKind::Logo
        } else if ends_with(key, ":shot") {
            TextureKind::Screenshot
        } else {
            TextureKind::Cover
        }
    }

    /// The largest side a decoded texture of this kind keeps.
    pub fn max_decoded_side(self) -> (s: u32)
        ensures
            s == max_side_of(self),
    {
        match self {
            TextureKind::Cover => 256,
            TextureKind::Hero => 960,
            TextureKind::Logo => 320,
            TextureKind::Screenshot => 480,
        }
    }
}

/// The dimensions the `image` crate reads from the header of `b` as PNG data.
pub uninterp spec fn png_dimensions_of(b: Seq<u8>) -> Option<(u32, u32)>;

/// The dimensions the `image` crate reads from the header of `b` as JPEG data.
pub uninterp spec fn jpeg_dimensions_of(b: Seq<u8>) -> Option<(u32, u32)>;

/// `image::ImageReader::into_dimensions` with the format set to PNG: its
/// result is named by `png_dimensions_of` of the bytes; a reading error
/// gives nothing.
#[verifier::external_body]
fn png_dimensions(bytes: &[u8]) -> (r: Option<(u32, u32)>)
    ensures
        r == png_dimensions_of(bytes@),
{
    let mut reader = image::ImageReader::new(std::io::Cursor::new(bytes));
    reader.set_format(image::ImageFormat::Png);
    reader.into_dimensions().ok()
}

/// `image::ImageReader::into_dimensions` with the format set to JPEG: its
/// result is named by `jpeg_dimensions_of` of the bytes; a reading error
/// gives nothing.
#[verifier::external_body]
fn jpeg_dimensions(bytes: &[u8]) -> (r: Option<(u32, u32)>)
    ensures
        r == jpeg_dimensions_of(bytes@),
{
    let mut reader = image::ImageReader::new(std::io::Cursor::new(bytes));
    reader.set_format(image::ImageFormat::Jpeg);
    reader.into_dimensions().ok()
}

/// `image::ImageReader::with_guessed_format` then `into_dimensions`. The
/// format guess also consults hooks registered process-wide in the `image`
/// crate, so nothing is claimed of the result.
#[verifier::external_body]
fn guessed_format_dimensions(bytes: &[u8]) -> (r: Option<(u32, u32)>) {
    let reader = image::ImageReader::new(std::io::Cursor::new(bytes)).with_guessed_format().ok()?;
    reader.into_dimensions().ok()
}

/// Whether image dimensions are beyond what the launcher decodes.
pub fn exceeds_decode_budget(dims: Option<(u32, u32)>) -> (b: bool)
    ensures
        b == match dims {
            Some((w, h)) => w > MAX_SOURCE_SIDE || h > MAX_SOURCE_SIDE,
            None => false,
        },
{
    match dims {
        Some((w, h)) => w > MAX_SOURCE_SIDE || h > MAX_SOURCE_SIDE,
        None => false,
    }
}

/// Whether an encoded image is too large to decode: PNG and JPEG data are
/// measured as such, other data by the guessed format; data that cannot be
/// measured is not too large.
pub fn source_exceeds_decode_budget(bytes: &[u8]) -> (b: bool)
    ensures
        is_png_spec(bytes@) ==> b == match png_dimensions_of(bytes@) {
            Some((w, h)) => w > MAX_SOURCE_SIDE || h > MAX_SOURCE_SIDE,
            None => false,
        },
        !is_png_spec(bytes@) && is_jpeg_spec(bytes@) ==> b == match jpeg_dimensions_of(bytes@) {
            Some((w, h)) => w > MAX_SOURCE_SIDE || h > MAX_SOURCE_SIDE,
            None => false,
        },
{
    let dims = if is_png(bytes) {
        png_dimensions(bytes)
    } else if is_jpeg(bytes) {
        jpeg_dimensions(bytes)
    } else {
        guessed_format_dimensions(bytes)
    };
    exceeds_decode_budget(dims)
}

} // verus!
