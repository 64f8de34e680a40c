//! Pictures through the `image` crate: decoding, resampling and PNG
//! encoding of RGBA buffers.

use vstd::prelude::*;

verus! {

/// What `image::load_from_memory` makes of `bytes`, once converted by
/// `DynamicImage::into_rgba8`: width, height and RGBA bytes.
pub uninterp spec fn decoded_rgba(bytes: Seq<u8>) -> Option<(u32, u32, Seq<u8>)>;

/// `image::load_from_memory` followed by `into_rgba8`. The crate decodes
/// the format it recognises in the bytes; the result depends on the bytes
/// alone, and an RGBA buffer holds four bytes per pixel.
#[verifier::external_body]
pub(crate) fn decode_rgba(bytes: &[u8]) -> (r: Option<(u32, u32, Vec<u8>)>)
    ensures
        decoded_rgba(bytes@) == match r {
            Some(t) => Some((t.0, t.1, t.2@)),
            None => None::<(u32, u32, Seq<u8>)>,
        },
        r matches Some(t) ==> t.2@.len() == t.0 * t.1 * 4,
{
    match image::load_from_memory(bytes) {
        Ok(img) => {
            let img = img.into_rgba8();
            let (w, h) = img.dimensions();
            Some((w, h, img.into_raw()))
        },
        Err(_) => None,
    }
}

/// What `image::imageops::resize` with the triangle filter makes of the
/// `w × h` RGBA pixels `px` at size `nw × nh`.
pub uninterp spec fn resized_rgba(px: Seq<u8>, w: u32, h: u32, nw: u32, nh: u32) -> Seq<u8>;

/// `image::imageops::resize` with `FilterType::Triangle` on an RGBA
/// buffer. The crate's result depends on its arguments alone and holds
/// `nw × nh` pixels of four bytes.
#[verifier::external_body]
pub(crate) fn resize_triangle(px: Vec<u8>, w: u32, h: u32, nw: u32, nh: u32) -> (r: Vec<u8>)
    requires
        px@.len() == w * h * 4,
    ensures
        r@ == resized_rgba(px@, w, h, nw, nh),
        r@.len() == nw * nh * 4,
{
    let img = image::RgbaImage::from_raw(w, h, px).unwrap();
    image::imageops::resize(&img, nw, nh, image::imageops::FilterType::Triangle).into_raw()
}

/// What the `image` crate's PNG encoder writes for the `w × h` RGBA pixels
/// `px`, or `None` where it refuses them.
pub uninterp spec fn png_encoded(w: u32, h: u32, px: Seq<u8>) -> Option<Seq<u8>>;

/// `DynamicImage::write_to` with `ImageFormat::Png` on an RGBA buffer. The
/// encoder's output depends on the pixels alone; it fails on an image that
/// PNG cannot hold, such as one with a side of zero.
#[verifier::external_body]
pub(crate) fn encode_png(w: u32, h: u32, px: Vec<u8>) -> (r: Option<Vec<u8>>)
    requires
        px@.len() == w * h * 4,
    ensures
        png_encoded(w, h, px@) == match r {
            Some(v) => Some(v@),
            None => None::<Seq<u8>>,
        },
{
    let img = image::RgbaImage::from_raw(w, h, px)?;
    let mut out: Vec<u8> = Vec::new();
    match image::DynamicImage::ImageRgba8(img).write_to(&mut std::io::Cursor::new(&mut out), image::ImageFormat::Png) {
        Ok(()) => Some(out),
        Err(_) => None,
    }
}

} // verus!
