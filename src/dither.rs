//! The dither pass: one bit per pixel, white where the luma exceeds the threshold.

use vstd::prelude::*;
use crate::codec::Bitmap;
use crate::matrix::ThresholdMatrix;

verus! {

/// A grayscale raster, row-major: `luma[y * width + x]` is the pixel at `(x, y)`.
pub struct LumaImage {
    pub dimensions: (u32, u32),
    pub luma: Vec<u8>,
}

impl LumaImage {
    /// The pixel count matches the dimensions.
    pub open spec fn wf(&self) -> bool {
        self.luma@.len() == self.dimensions.0 as nat * self.dimensions.1 as nat
    }
}

/// Pixel count of an image with these dimensions.
pub open spec fn area(dimensions: (u32, u32)) -> nat {
    dimensions.0 as nat * dimensions.1 as nat
}

/// The bits of `image` dithered against `m`: bit `i` is white when the luma of
/// pixel `i` is strictly above the threshold at its coordinates.
pub open spec fn dither_bits(image: LumaImage, m: ThresholdMatrix) -> Seq<bool> {
    Seq::new(
        area(image.dimensions),
        |i: int|
            image.luma@[i] > m.at(i % image.dimensions.0 as int, i / image.dimensions.0 as int),
    )
}

/// The threshold matrix can serve every pixel of `image`.
pub open spec fn serves(m: ThresholdMatrix, image: LumaImage) -> bool {
    m.wf() && (area(image.dimensions) > 0 ==> m.tiles())
}

/// Dithers `img_luma` against `threshold_matrix`, in row-major order.
pub fn dithered_rgb_image(threshold_matrix: &ThresholdMatrix, img_luma: &LumaImage) -> (r: Bitmap)
    requires
        img_luma.wf(),
        serves(*threshold_matrix, *img_luma),
    ensures
        r.wf(),
        r.dimensions == img_luma.dimensions,
        r.bits@ == dither_bits(*img_luma, *threshold_matrix),
{
    let dimensions = img_luma.dimensions;
    let w = dimensions.0;
    let n: usize = img_luma.luma.len();
    let mut bits: Vec<bool> = Vec::new();
    let mut i: usize = 0;
    while i < n
        invariant
            img_luma.wf(),
            serves(*threshold_matrix, *img_luma),
            w == img_luma.dimensions.0,
            n == area(img_luma.dimensions),
            i <= n,
            bits@ == dither_bits(*img_luma, *threshold_matrix).take(i as int),
        decreases n - i,
    {
        proof {
            lemma_pixel_coords(i as int, w as int, img_luma.dimensions.1 as int);
        }
        let x = (i % (w as usize)) as u32;
        let y = (i / (w as usize)) as u32;
        let white = img_luma.luma[i] > threshold_matrix.look_up(x, y);
        bits.push(white);
        i = i + 1;
        assert(bits@ =~= dither_bits(*img_luma, *threshold_matrix).take(i as int));
    }
    assert(bits@ =~= dither_bits(*img_luma, *threshold_matrix));
    Bitmap { dimensions, bits }
}

proof fn lemma_pixel_coords(i: int, w: int, h: int)
    requires
        0 <= i < w * h,
        0 <= w,
        0 <= h,
    ensures
        w > 0,
        0 <= i % w < w,
        0 <= i / w < h,
{
    assert(w > 0) by (nonlinear_arith)
        requires
            0 <= i < w * h,
            0 <= h,
            0 <= w,
    ;
    vstd::arithmetic::div_mod::lemma_fundamental_div_mod(i, w);
    vstd::arithmetic::div_mod::lemma_mod_bound(i, w);
    vstd::arithmetic::div_mod::lemma_div_pos_is_pos(i, w);
    assert(i / w < h) by (nonlinear_arith)
        requires
            i == w * (i / w) + i % w,
            0 <= i % w,
            i < w * h,
            w > 0,
    ;
}

} // verus!
