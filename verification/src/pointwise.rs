use vstd::prelude::*;

use crate::codec::{luminance, luminance_spec, pack_spec, Pixel};

verus! {

/// The packed color `grayscale` produces for one pixel: its rounded mean
/// luminance repeated on all three channels.
pub open spec fn gray_pixel_spec(p: Pixel) -> u32 {
    pack_spec(luminance_spec(p), luminance_spec(p), luminance_spec(p))
}

/// The packed color `negative` produces for one pixel: every channel
/// inverted, read in the canonical blue, green, red storage order.
pub open spec fn negative_pixel_spec(p: Pixel) -> u32 {
    pack_spec((255 - p[2]) as u8, (255 - p[1]) as u8, (255 - p[0]) as u8)
}

/// Maps every pixel to its gray tone: the rounded mean of the three
/// channels, packed on all three channels.
pub fn grayscale(image: Vec<Pixel>) -> (out: Vec<u32>)
    ensures
        out@.len() == image@.len(),
        forall|i: int| 0 <= i < image@.len() ==> out@[i] == gray_pixel_spec(image@[i]),
{
    let mut new_image: Vec<u32> = Vec::new();
    let n = image.len();
    for k in 0..n
        invariant
            n == image@.len(),
            new_image@.len() == k,
            forall|i: int| 0 <= i < k ==> new_image@[i] == gray_pixel_spec(image@[i]),
    {
        let gray_tone = luminance(&image[k]);
        let color = crate::codec::get_color_integer_from_gray(gray_tone);
        new_image.push(color);
    }
    new_image
}

/// Inverts every channel of every pixel and packs the result, reading the
/// stored channels as blue, green, red.
pub fn negative(image: Vec<Pixel>) -> (out: Vec<u32>)
    ensures
        out@.len() == image@.len(),
        forall|i: int| 0 <= i < image@.len() ==> out@[i] == negative_pixel_spec(image@[i]),
{
    let mut new_image: Vec<u32> = Vec::new();
    let n = image.len();
    for k in 0..n
        invariant
            n == image@.len(),
            new_image@.len() == k,
            forall|i: int| 0 <= i < k ==> new_image@[i] == negative_pixel_spec(image@[i]),
    {
        let p = image[k];
        let r = 255 - p[2];
        let g = 255 - p[1];
        let b = 255 - p[0];
        let color = crate::codec::get_color_integer_from_rgb(r, g, b);
        new_image.push(color);
    }
    new_image
}

} // verus!
