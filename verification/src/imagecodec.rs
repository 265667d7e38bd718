//! PNG encoding through the `image` crate. Dedup of repeated captures of
//! one bitmap rests on the encoder being deterministic for identical input,
//! so both encodings are named: every contract above them speaks of
//! `png_of` and `png_reencoded`.

use vstd::prelude::*;

verus! {

/// What encoding `width x height` RGBA pixels as PNG returns.
pub uninterp spec fn png_of(width: u32, height: u32, rgba: Seq<u8>) -> Seq<u8>;

/// Relies on `image::RgbaImage::from_raw` and `DynamicImage::write_to` with
/// the PNG format: the encoding is a function of the dimensions and pixels
/// alone; it succeeds for every non-empty image. The exact-length
/// `requires` keeps the underlying encoder's own length assertion
/// unreachable.
#[verifier::external_body]
fn png_encode_rgba(width: u32, height: u32, rgba: &Vec<u8>) -> (r: Option<Vec<u8>>)
    requires
        rgba@.len() == 4 * width * height,
    ensures
        r matches Some(p) ==> p@ == png_of(width, height, rgba@),
        (width >= 1 && height >= 1) ==> r is Some,
{
    let buf = image::RgbaImage::from_raw(width, height, rgba.clone())?;
    let mut out = std::io::Cursor::new(Vec::new());
    image::DynamicImage::ImageRgba8(buf).write_to(&mut out, image::ImageFormat::Png).ok()?;
    Some(out.into_inner())
}

/// Encodes raw RGBA pixels as PNG bytes, the canonical stored form of every
/// image capture. Fails exactly when the buffer cannot form a non-empty
/// `width x height` image.
pub fn encode_rgba_to_png_bytes(width: u32, height: u32, rgba: &Vec<u8>) -> (r: Option<Vec<u8>>)
    ensures
        r matches Some(p) ==> p@ == png_of(width, height, rgba@),
        r is Some <==> (rgba@.len() == 4 * width * height && width >= 1 && height >= 1),
{
    if width == 0 || height == 0 {
        return None;
    }
    let len = rgba.len() as u64;
    proof {
        assert((width as int) * (height as int) < 0x1_0000_0000_0000_0000) by (nonlinear_arith)
            requires
                width <= 0xFFFF_FFFFu32,
                height <= 0xFFFF_FFFFu32,
        ;
    }
    let wh = (width as u64) * (height as u64);
    proof {
        assert(4 * (wh as int) == 4 * (width as int) * (height as int)) by (nonlinear_arith)
            requires
                wh as int == (width as int) * (height as int),
        ;
    }
    if wh > 0x3FFF_FFFF_FFFF_FFFF {
        proof {
            assert(rgba@.len() < 4 * (width as int) * (height as int));
        }
        return None;
    }
    let total = 4 * wh;
    if len != total {
        return None;
    }
    png_encode_rgba(width, height, rgba)
}

/// What decoding arbitrary image bytes and re-encoding them as PNG returns;
/// `None` when the bytes are no image this build can read.
pub uninterp spec fn png_reencoded(bytes: Seq<u8>) -> Option<Seq<u8>>;

/// Relies on `image::load_from_memory` and `DynamicImage::write_to` with
/// the PNG format: whether the bytes decode, and the PNG they re-encode to,
/// are functions of the bytes alone.
#[verifier::external_body]
pub(crate) fn png_reencode(bytes: &Vec<u8>) -> (r: Option<Vec<u8>>)
    ensures
        r matches Some(p) ==> png_reencoded(bytes@) == Some(p@),
        r is None ==> png_reencoded(bytes@) is None,
{
    match image::load_from_memory(bytes) {
        Ok(img) => {
            let mut out = std::io::Cursor::new(Vec::new());
            match img.write_to(&mut out, image::ImageFormat::Png) {
                Ok(()) => Some(out.into_inner()),
                Err(_) => None,
            }
        },
        Err(_) => None,
    }
}

} // verus!
