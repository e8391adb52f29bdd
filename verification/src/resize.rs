//! Lanczos3 resampling, computed by `fast_image_resize`.
use vstd::prelude::*;
use fast_image_resize as fr;

verus! {

/// The bytes of the `dst_width x dst_height` RGB image that `fast_image_resize`
/// computes from the `src_width x src_height` RGB image `src` with a Lanczos3
/// convolution.
pub uninterp spec fn lanczos3_resized(
    src: Seq<u8>,
    src_width: u32,
    src_height: u32,
    dst_width: u32,
    dst_height: u32,
) -> Seq<u8>;

/// Resamples an RGB image with `fast_image_resize::Resizer::resize`
/// (convolution with the Lanczos3 filter, the default resizer options).
///
/// Claimed of the outside code: the result is the destination image, three
/// bytes per pixel, and a function of the arguments alone (the crate's tests
/// check one checksum for every set of CPU extensions); when the source and
/// destination sizes agree, the source is copied unchanged. For an RGB source
/// whose buffer holds exactly its pixels the resizer reports no error.
#[verifier::external_body]
pub(crate) fn resize_lanczos3(
    src: &[u8],
    src_width: u32,
    src_height: u32,
    dst_width: u32,
    dst_height: u32,
) -> (out: Vec<u8>)
    requires
        src@.len() == src_width * src_height * 3,
        dst_width * dst_height * 3 <= isize::MAX,
    ensures
        out@ == lanczos3_resized(src@, src_width, src_height, dst_width, dst_height),
        out@.len() == dst_width * dst_height * 3,
        src_width == dst_width && src_height == dst_height ==> out@ == src@,
{
    let src_image = fr::images::ImageRef::new(src_width, src_height, src, fr::PixelType::U8x3)
        .expect("the source buffer holds its pixels");
    let mut dst = fr::images::Image::new(dst_width, dst_height, fr::PixelType::U8x3);
    let options = fr::ResizeOptions::new()
        .resize_alg(fr::ResizeAlg::Convolution(fr::FilterType::Lanczos3));
    fr::Resizer::new().resize(&src_image, &mut dst, &options).expect("Failed to resize image");
    dst.into_vec()
}

} // verus!
