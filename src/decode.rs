//! Decoding image files into a single gray channel.

use vstd::prelude::*;
use crate::raster::{GrayBuffer, lemma_index_in_grid};
use crate::stamp::{Options, StampError, generate_raw, raw_outcome};

verus! {

#[verifier::external_type_specification]
#[verifier::external_body]
pub struct ExImageError(image::ImageError);

/// How the channels of a decoded image are laid out.
#[derive(Clone, Copy, Debug, PartialEq, Eq, Structural)]
pub enum PixelLayout {
    Luma,
    LumaAlpha,
    Rgba,
    Other,
}

/// Samples per pixel; 0 for a layout that cannot be reduced to one channel.
pub open spec fn channel_count(l: PixelLayout) -> int {
    match l {
        PixelLayout::Luma => 1,
        PixelLayout::LumaAlpha => 2,
        PixelLayout::Rgba => 4,
        PixelLayout::Other => 0,
    }
}

/// What decoding `bytes` gives: `None` when they are not an image that can
/// be decoded, else the channel layout, width, height and interleaved samples.
pub uninterp spec fn decoded_of(bytes: Seq<u8>) -> Option<(PixelLayout, u32, u32, Seq<u8>)>;

/// Relies on image::load_from_memory, which guesses the format from the
/// bytes and decodes them with fixed default limits, so that the outcome
/// depends on the bytes alone; the variants of image::DynamicImage tell the
/// 8-bit gray, gray with alpha and RGBA layouts apart from all others.
#[verifier::external_body]
fn decode_image(bytes: &[u8]) -> (r: Result<(PixelLayout, u32, u32, Vec<u8>), image::ImageError>)
    ensures
        r is Ok <==> decoded_of(bytes@) is Some,
        r matches Ok(d) ==> decoded_of(bytes@) == Some((d.0, d.1, d.2, d.3@)),
{
    let img = image::load_from_memory(bytes)?;
    let layout = match &img {
        image::DynamicImage::ImageLuma8(_) => PixelLayout::Luma,
        image::DynamicImage::ImageLumaA8(_) => PixelLayout::LumaAlpha,
        image::DynamicImage::ImageRgba8(_) => PixelLayout::Rgba,
        _ => PixelLayout::Other,
    };
    Ok((layout, img.width(), img.height(), img.into_bytes()))
}

/// The samples cannot be reduced to one gray channel: the layout is not
/// gray, gray with alpha or RGBA, or the samples do not fill the image.
pub open spec fn unsupported(layout: PixelLayout, width: u32, height: u32, samples: Seq<u8>) -> bool {
    channel_count(layout) == 0 || samples.len() != width * height * channel_count(layout)
}

/// The gray value of a pixel: its last channel, which is the alpha channel
/// when there is one.
pub open spec fn gray_ok(samples: Seq<u8>, layout: PixelLayout, g: GrayBuffer) -> bool {
    let c = channel_count(layout);
    &&& g.wf()
    &&& forall|i: int| 0 <= i < g.data@.len() ==> #[trigger] g.data@[i] == samples[i * c + c - 1]
}

/// Reduces interleaved samples to one channel per pixel, keeping the last
/// channel of each pixel. Fails on a layout other than gray, gray with
/// alpha or RGBA, or when the samples do not fill the image exactly.
pub fn flatten_alpha(samples: &Vec<u8>, layout: PixelLayout, width: u32, height: u32) -> (r: Result<
    GrayBuffer,
    StampError,
>)
    ensures
        match r {
            Ok(g) => channel_count(layout) > 0 && samples@.len() == width * height * channel_count(layout)
                && g.width == width && g.height == height && gray_ok(samples@, layout, g),
            Err(e) => (e matches StampError::UnsupportedPixelFormat) && (channel_count(layout) == 0
                || samples@.len() != width * height * channel_count(layout)),
        },
{
    let c: u64 = match layout {
        PixelLayout::Luma => 1,
        PixelLayout::LumaAlpha => 2,
        PixelLayout::Rgba => 4,
        PixelLayout::Other => 0,
    };
    if c == 0 {
        return Err(StampError::UnsupportedPixelFormat);
    }
    assert((width as u64) * (height as u64) <= 0xffff_ffff * 0xffff_ffff) by (nonlinear_arith)
        requires width <= 0xffff_ffff, height <= 0xffff_ffff;
    let n: u64 = (width as u64) * (height as u64);
    assert(n * c <= 0xffff_ffff_ffff_ffff * 4) by (nonlinear_arith)
        requires n <= 0xffff_ffff_ffff_ffff, c <= 4;
    if (n as u128) * (c as u128) != samples.len() as u128 {
        return Err(StampError::UnsupportedPixelFormat);
    }
    let len = samples.len();
    assert(n <= len) by (nonlinear_arith)
        requires len == n * c, c >= 1, n >= 0;
    let mut data: Vec<u8> = Vec::new();
    let mut i: usize = 0;
    let total = n as usize;
    while i < total
        invariant
            total == n,
            n == width * height,
            samples@.len() == n * c,
            len == samples@.len(),
            1 <= c <= 4,
            c == channel_count(layout),
            i <= total,
            data@.len() == i,
            forall|j: int| 0 <= j < i ==> #[trigger] data@[j] == samples@[j * c + c - 1],
        decreases total - i,
    {
        assert(i * c + c - 1 < n * c) by (nonlinear_arith)
            requires i < n, c >= 1;
        assert(i * c + c - 1 == (i as int) * (c as int) + (c as int) - 1);
        let k: usize = i * (c as usize) + (c as usize) - 1;
        let v = samples[k];
        data.push(v);
        i = i + 1;
    }
    Ok(GrayBuffer { width, height, data })
}

/// Decodes image bytes and converts the gray raster they hold (the alpha
/// channel, when there is one) into the text of a closed solid, as
/// `generate_raw` does.
pub fn generate_from_bytes(bytes: &[u8], opt: &Options) -> (r: Result<String, StampError>)
    ensures
        decoded_of(bytes@) is None <==> (r matches Err(StampError::Decode(_))),
        match decoded_of(bytes@) {
            None => true,
            Some((layout, width, height, samples)) => {
                &&& unsupported(layout, width, height, samples) <==> (r matches Err(
                    StampError::UnsupportedPixelFormat,
                ))
                &&& !unsupported(layout, width, height, samples) ==> exists|g: GrayBuffer|
                    g.width == width && g.height == height && #[trigger] gray_ok(samples, layout, g)
                        && raw_outcome(g, *opt, r)
            },
        },
{
    let (layout, width, height, samples) = match decode_image(bytes) {
        Ok(d) => d,
        Err(e) => {
            return Err(StampError::Decode(e));
        },
    };
    let gray = match flatten_alpha(&samples, layout, width, height) {
        Ok(g) => g,
        Err(e) => {
            return Err(e);
        },
    };
    let ghost g = gray;
    let r = generate_raw(gray, opt);
    assert(gray_ok(samples@, layout, g));
    r
}

} // verus!
