//! Tile pixel buffers, and the decoding and resampling the `image` crate
//! performs on them.

use vstd::prelude::*;

verus! {

/// The pixels of one tile: an RGBA buffer of `width * height` pixels,
/// four bytes per pixel.
#[derive(Debug)]
pub struct TilePixels {
    pub data: Vec<u8>,
    pub width: u32,
    pub height: u32,
}

impl TilePixels {
    pub open spec fn wf(self) -> bool {
        self.data@.len() == self.width * self.height * 4
    }
}

/// What decoding an encoded image into RGBA yields: the raw pixels with
/// their dimensions, or nothing when the bytes are not a readable image.
/// The result depends on the bytes alone.
pub uninterp spec fn decoded_rgba(bytes: Seq<u8>) -> Option<(Seq<u8>, u32, u32)>;

/// Relies on image::load_from_memory and DynamicImage::to_rgba8: decoding
/// is a function of the encoded bytes alone, a failure is reported as an
/// error value, and an RGBA buffer holds exactly width * height * 4 bytes.
#[verifier::external_body]
pub(crate) fn decode_rgba(bytes: &Vec<u8>) -> (r: Option<TilePixels>)
    ensures
        r is Some <==> decoded_rgba(bytes@) is Some,
        r matches Some(p) ==> decoded_rgba(bytes@) == Some((p.data@, p.width, p.height)) && p.wf(),
{
    let img = match image::load_from_memory(bytes) {
        Ok(img) => img,
        Err(_) => return None,
    };
    let rgba = img.to_rgba8();
    let width = rgba.width();
    let height = rgba.height();
    Some(TilePixels { data: rgba.into_raw(), width, height })
}

/// What resampling an RGBA buffer to new dimensions with the Lanczos3
/// filter yields. The result depends on the pixels and the four sizes
/// alone.
pub uninterp spec fn lanczos_resized(
    src: Seq<u8>,
    src_w: u32,
    src_h: u32,
    dst_w: u32,
    dst_h: u32,
) -> Seq<u8>;

/// Relies on image::imageops::resize with FilterType::Lanczos3: the result
/// is a function of the source pixels and the dimensions alone, and is a
/// buffer of exactly the requested dimensions.
#[verifier::external_body]
pub(crate) fn resize_rgba(src: Vec<u8>, src_w: u32, src_h: u32, dst_w: u32, dst_h: u32) -> (r: Vec<
    u8,
>)
    requires
        src@.len() == src_w * src_h * 4,
        1 <= src_w,
        1 <= src_h,
        1 <= dst_w,
        1 <= dst_h,
    ensures
        r@ == lanczos_resized(src@, src_w, src_h, dst_w, dst_h),
        r@.len() == dst_w * dst_h * 4,
{
    let img: image::RgbaImage = image::RgbaImage::from_raw(src_w, src_h, src).unwrap();
    image::imageops::resize(&img, dst_w, dst_h, image::imageops::FilterType::Lanczos3).into_raw()
}

} // verus!
