//! Pack: threshold matrix, dither, frame, compress. Unpack: the mirror, with
//! each bit expanded to an opaque black or white pixel.

use vstd::prelude::*;
use crate::codec::{decode, decode_spec, encode, frame_of, payload_len, declared_bits, FrameError};
use crate::dither::{dithered_rgb_image, dither_bits, serves, area, LumaImage};
use crate::error::DitherpackError;
use crate::codec::lemma_frame_round_trip;
use crate::matrix::{bayer_cells, lemma_wrap_index_in_range, ThresholdMatrix};

verus! {

/// Compression level of packed frames, on zstd's scale of 1 to 22.
pub const COMPRESSION_LEVEL: i32 = 19;

/// Bayer power of the ordered method: an 8 × 8 matrix.
pub const BAYER_POWER: u32 = 3;

/// Pixel value of a white bit.
pub const WHITE: u32 = 0xFFFF_FFFF;

/// Pixel value of a black bit.
pub const BLACK: u32 = 0xFF00_0000;

/// How the threshold matrix is made.
#[derive(Clone, Copy, Debug, PartialEq, Eq, Structural)]
pub enum DitherType {
    Bayer,
    BlueNoise,
    WhiteNoise,
}

/// A reconstructed image: one 32-bit pixel per bit, row-major.
pub struct RgbImage {
    pub dimensions: (u32, u32),
    pub pixels: Vec<u32>,
}

/// The zstd frame that compressing `data` at `level` gives.
pub uninterp spec fn zstd_frame(data: Seq<u8>, level: i32) -> Seq<u8>;

/// Relies on `zstd::encode_all`: compressing an in-memory slice into a `Vec`
/// succeeds, and gives the frame of `data` at `level`, which depends on the two alone.
#[verifier::external_body]
fn zstd_encode(data: &[u8], level: i32) -> (r: Result<Vec<u8>, std::io::Error>)
    requires
        1 <= level <= 22,
    ensures
        r is Ok,
        r matches Ok(v) ==> v@ == zstd_frame(data@, level),
{
    zstd::encode_all(data, level)
}

/// Relies on `zstd::decode_all`: zstd is lossless, so a frame that `encode_all`
/// made decodes to the bytes it was made from; a non-empty strict prefix of such a
/// frame ends mid-frame, which the decoder reports as an incomplete frame.
#[verifier::external_body]
fn zstd_decode(data: &[u8]) -> (r: Result<Vec<u8>, std::io::Error>)
    ensures
        forall|x: Seq<u8>, level: i32|
            1 <= level <= 22 && data@ == #[trigger] zstd_frame(x, level) ==> r is Ok && r->Ok_0@ == x,
        forall|x: Seq<u8>, level: i32|
            1 <= level <= 22 && is_strict_prefix(data@, #[trigger] zstd_frame(x, level)) ==> r is Err,
{
    zstd::decode_all(data)
}

/// The dimensions and row-major luma bytes that decoding `png` as a PNG image gives.
pub uninterp spec fn png_luma(png: Seq<u8>) -> Option<(u32, u32, Seq<u8>)>;

/// `a` is a non-empty proper prefix of `b`.
pub open spec fn is_strict_prefix(a: Seq<u8>, b: Seq<u8>) -> bool {
    0 < a.len() < b.len() && a == b.take(a.len() as int)
}

/// Relies on `image::load_from_memory_with_format` (PNG) and `DynamicImage::to_luma8`:
/// the dimensions and row-major luma bytes of a PNG image, one byte per pixel, or
/// `None` if it does not decode; both depend on the bytes alone.
#[verifier::external_body]
fn decode_png_luma(png: &[u8]) -> (r: Option<((u32, u32), Vec<u8>)>)
    ensures
        r is None <==> png_luma(png@) is None,
        r matches Some((d, l)) ==> png_luma(png@) == Some((d.0, d.1, l@)) && l@.len() == d.0 as nat * d.1 as nat,
{
    match image::load_from_memory_with_format(png, image::ImageFormat::Png) {
        Ok(img) => {
            let gray = img.to_luma8();
            Some((gray.dimensions(), gray.into_raw()))
        },
        Err(_) => None,
    }
}

/// Compresses `data` at `COMPRESSION_LEVEL`.
pub fn compress(data: &[u8]) -> (r: Result<Vec<u8>, DitherpackError>)
    ensures
        r is Ok,
        r matches Ok(v) ==> v@ == zstd_frame(data@, COMPRESSION_LEVEL),
{
    match zstd_encode(data, COMPRESSION_LEVEL) {
        Ok(v) => Ok(v),
        Err(e) => Err(DitherpackError::Compression(e)),
    }
}

/// Decompresses `data`; what `compress` made comes back unchanged.
pub fn decompress(data: &[u8]) -> (r: Result<Vec<u8>, DitherpackError>)
    ensures
        forall|x: Seq<u8>| data@ == #[trigger] zstd_frame(x, COMPRESSION_LEVEL) ==> (r matches Ok(v) && v@ == x),
        forall|x: Seq<u8>|
            is_strict_prefix(data@, #[trigger] zstd_frame(x, COMPRESSION_LEVEL)) ==> r is Err,
        r matches Err(e) ==> e is Decompression,
{
    let r = zstd_decode(data);
    assert forall|x: Seq<u8>| data@ == #[trigger] zstd_frame(x, COMPRESSION_LEVEL) implies (r matches Ok(v) && v@
        == x) by {
        assert(1 <= COMPRESSION_LEVEL <= 22);
    }
    assert forall|x: Seq<u8>| is_strict_prefix(data@, #[trigger] zstd_frame(x, COMPRESSION_LEVEL)) implies r is Err by {
        assert(1 <= COMPRESSION_LEVEL <= 22);
    }
    match r {
        Ok(v) => Ok(v),
        Err(e) => Err(DitherpackError::Decompression(e)),
    }
}

/// Pixel value of a bit.
pub open spec fn pixel_of(b: bool) -> u32 {
    if b {
        WHITE
    } else {
        BLACK
    }
}

/// What unpacking a frame gives: dimensions and pixels, or why the frame is bad.
pub open spec fn unpacked(frame: Seq<u8>) -> Result<((u32, u32), Seq<u32>), FrameError> {
    match decode_spec(frame) {
        Ok((w, h, bits)) => Ok(((w, h), bits.map_values(|b: bool| pixel_of(b)))),
        Err(e) => Err(e),
    }
}

/// `r` is what unpacking `frame` gives.
pub open spec fn unpacks_to(r: Result<RgbImage, DitherpackError>, frame: Seq<u8>) -> bool {
    match unpacked(frame) {
        Ok((d, px)) => r matches Ok(img) && img.dimensions == d && img.pixels@ == px,
        Err(e) => r matches Err(DitherpackError::Decode(f)) && f == e,
    }
}

/// The blue-noise tile decodes to a non-empty image with one byte per pixel.
pub open spec fn tile_usable(tile: Seq<u8>) -> bool {
    png_luma(tile) matches Some((w, h, l)) && w > 0 && h > 0 && l.len() == w as nat * h as nat
}

/// The threshold matrix that `method` may build for `image`, given the PNG bytes
/// of the blue-noise tile: the Bayer matrix of side 8, the decoded tile, or a
/// matrix of the image's own dimensions (whose cells are drawn at random).
pub open spec fn method_matrix(method: DitherType, image: LumaImage, tile: Seq<u8>, m: ThresholdMatrix) -> bool {
    &&& serves(m, image)
    &&& match method {
        DitherType::Bayer => m.dimensions == (8u32, 8u32) && m.matrix@ == bayer_cells(BAYER_POWER as nat),
        DitherType::BlueNoise => png_luma(tile) matches Some((w, h, l)) && m.dimensions == (w, h) && m.matrix@ == l,
        DitherType::WhiteNoise => m.dimensions == image.dimensions,
    }
}

/// Which errors packing with `method` may end in.
pub open spec fn method_error(method: DitherType, e: DitherpackError) -> bool {
    ||| (method == DitherType::BlueNoise && e is Asset)
    ||| (method == DitherType::WhiteNoise && e is RandomSource)
}

/// Expands each bit of a decompressed frame to a pixel.
pub fn unpack_frame(frame: &[u8]) -> (r: Result<RgbImage, DitherpackError>)
    ensures
        unpacks_to(r, frame@),
{
    match decode(frame) {
        Ok(bitmap) => {
            let mut pixels: Vec<u32> = Vec::new();
            let n = bitmap.bits.len();
            let mut i: usize = 0;
            while i < n
                invariant
                    n == bitmap.bits@.len(),
                    i <= n,
                    pixels@ == bitmap.bits@.take(i as int).map_values(|b: bool| pixel_of(b)),
                decreases n - i,
            {
                let px = if bitmap.bits[i] { WHITE } else { BLACK };
                pixels.push(px);
                i = i + 1;
                assert(pixels@ =~= bitmap.bits@.take(i as int).map_values(|b: bool| pixel_of(b)));
            }
            assert(bitmap.bits@.take(n as int) =~= bitmap.bits@);
            Ok(RgbImage { dimensions: bitmap.dimensions, pixels })
        },
        Err(e) => Err(DitherpackError::Decode(e)),
    }
}

/// Decompresses a packed stream and expands its bitmap to pixels.
pub fn unpack(bytes: &[u8]) -> (r: Result<RgbImage, DitherpackError>)
    ensures
        forall|frame: Seq<u8>| bytes@ == #[trigger] zstd_frame(frame, COMPRESSION_LEVEL) ==> unpacks_to(r, frame),
        forall|frame: Seq<u8>|
            is_strict_prefix(bytes@, #[trigger] zstd_frame(frame, COMPRESSION_LEVEL)) ==> r matches Err(
                DitherpackError::Decompression(_),
            ),
        r matches Err(e) ==> e is Decode || e is Decompression,
        !(r matches Err(DitherpackError::Decompression(_))) ==> exists|frame: Seq<u8>| unpacks_to(r, frame),
{
    match decompress(bytes) {
        Ok(frame) => {
            let r = unpack_frame(&frame);
            assert(unpacks_to(r, frame@));
            r
        },
        Err(e) => Err(e),
    }
}

/// The matrix that `method` uses for `image`; `blue_noise_png` is the PNG of the
/// blue-noise tile.
pub fn threshold_matrix(method: DitherType, image: &LumaImage, blue_noise_png: &[u8]) -> (r: Result<
    ThresholdMatrix,
    DitherpackError,
>)
    requires
        image.wf(),
    ensures
        r matches Ok(m) ==> method_matrix(method, *image, blue_noise_png@, m),
        method == DitherType::Bayer ==> r is Ok,
        method == DitherType::BlueNoise ==> (r is Ok <==> tile_usable(blue_noise_png@)),
        r matches Err(e) ==> method_error(method, e),
{
    match method {
        DitherType::Bayer => {
            let m = ThresholdMatrix::bayer_matrix(BAYER_POWER);
            proof {
                crate::matrix::reveal_side_3();
            }
            match m {
                Ok(m) => Ok(m),
                Err(e) => Err(e),
            }
        },
        DitherType::BlueNoise => match decode_png_luma(blue_noise_png) {
            Some((dimensions, luma)) => match ThresholdMatrix::blue_noise(dimensions, luma) {
                Some(m) => Ok(m),
                None => Err(DitherpackError::Asset),
            },
            None => Err(DitherpackError::Asset),
        },
        DitherType::WhiteNoise => {
            // The image's pixels fit in memory, so a matrix of its dimensions does too.
            let _pixel_count: usize = image.luma.len();
            match ThresholdMatrix::white_noise(image.dimensions) {
                Some(m) => Ok(m),
                None => Err(DitherpackError::RandomSource),
            }
        },
    }
}

/// Dithers `image` with `method`, frames the bitmap and compresses the frame.
/// With the Bayer method, or a usable blue-noise tile, it always succeeds and the
/// result depends on its arguments alone; with white noise it fails only when the
/// random source does.
pub fn pack(image: &LumaImage, method: DitherType, blue_noise_png: &[u8]) -> (r: Result<Vec<u8>, DitherpackError>)
    requires
        image.wf(),
    ensures
        r matches Ok(bytes) ==> exists|m: ThresholdMatrix|
            method_matrix(method, *image, blue_noise_png@, m) && bytes@ == zstd_frame(
                frame_of(image.dimensions.0, image.dimensions.1, dither_bits(*image, m)),
                COMPRESSION_LEVEL,
            ),
        method == DitherType::Bayer ==> r is Ok,
        method == DitherType::BlueNoise ==> (r is Ok <==> tile_usable(blue_noise_png@)),
        r matches Err(e) ==> method_error(method, e),
{
    let m = match threshold_matrix(method, image, blue_noise_png) {
        Ok(m) => m,
        Err(e) => {
            return Err(e);
        },
    };
    let bitmap = dithered_rgb_image(&m, image);
    let frame = encode(&bitmap);
    match compress(&frame) {
        Ok(bytes) => {
            assert(method_matrix(method, *image, blue_noise_png@, m));
            Ok(bytes)
        },
        Err(e) => Err(e),
    }
}

/// Unpacking the frame of an all-black image gives only black pixels, one per
/// pixel, whatever the threshold matrix.
pub proof fn lemma_black_image_unpacks_black(image: LumaImage, m: ThresholdMatrix)
    requires
        image.wf(),
        serves(m, image),
        area(image.dimensions) <= usize::MAX,
        forall|i: int| 0 <= i < image.luma@.len() ==> image.luma@[i] == 0,
    ensures
        unpacked(frame_of(image.dimensions.0, image.dimensions.1, dither_bits(image, m)))
            == Ok::<((u32, u32), Seq<u32>), FrameError>(
            (image.dimensions, Seq::new(area(image.dimensions), |i: int| BLACK)),
        ),
{
    let bits = dither_bits(image, m);
    lemma_frame_round_trip(image.dimensions.0, image.dimensions.1, bits);
    assert(bits.map_values(|b: bool| pixel_of(b)) =~= Seq::new(area(image.dimensions), |i: int| BLACK));
}

/// Unpacking the frame of an all-white image gives only white pixels, one per
/// pixel, when every threshold is below 255 (as in every Bayer matrix).
pub proof fn lemma_white_image_unpacks_white(image: LumaImage, m: ThresholdMatrix)
    requires
        image.wf(),
        serves(m, image),
        area(image.dimensions) <= usize::MAX,
        forall|i: int| 0 <= i < image.luma@.len() ==> image.luma@[i] == 255,
        forall|c: int| 0 <= c < m.matrix@.len() ==> m.matrix@[c] < 255,
    ensures
        unpacked(frame_of(image.dimensions.0, image.dimensions.1, dither_bits(image, m)))
            == Ok::<((u32, u32), Seq<u32>), FrameError>(
            (image.dimensions, Seq::new(area(image.dimensions), |i: int| WHITE)),
        ),
{
    let w = image.dimensions.0 as int;
    let bits = dither_bits(image, m);
    lemma_frame_round_trip(image.dimensions.0, image.dimensions.1, bits);
    assert forall|i: int| 0 <= i < bits.len() implies bits[i] by {
        lemma_wrap_index_in_range(m, i % w, i / w);
    }
    assert(bits.map_values(|b: bool| pixel_of(b)) =~= Seq::new(area(image.dimensions), |i: int| WHITE));
}

/// A frame shorter than its header, or than the bits its dimensions declare, is
/// rejected as truncated: no pixels come back.
pub proof fn lemma_truncated_frame_rejected(frame: Seq<u8>)
    requires
        frame.len() < 8 || frame.len() < 8 + payload_len(declared_bits(frame)),
    ensures
        unpacked(frame) == Err::<((u32, u32), Seq<u32>), FrameError>(FrameError::Truncated),
{
}

} // verus!
