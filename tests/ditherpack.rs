use ditherpack::codec::{decode, encode, Bitmap, FrameError};
use ditherpack::dither::{dithered_rgb_image, LumaImage};
use ditherpack::matrix::ThresholdMatrix;
use ditherpack::packing::{
    compress, decompress, pack, threshold_matrix, unpack, unpack_frame, DitherType, BLACK, WHITE,
};
use ditherpack::DitherpackError;

fn constant_image(w: u32, h: u32, luma: u8) -> LumaImage {
    LumaImage { dimensions: (w, h), luma: vec![luma; (w * h) as usize] }
}

#[test]
fn bayer_power_one_exact_cells() {
    let m = ThresholdMatrix::bayer_matrix(1).unwrap();
    assert_eq!(m.dimensions, (2, 2));
    assert_eq!(m.matrix, vec![0, 127, 191, 63]);
}

#[test]
fn bayer_cells_distinct_for_small_powers() {
    for power in 1..=3u32 {
        let m = ThresholdMatrix::bayer_matrix(power).unwrap();
        let n = 1u32 << power;
        assert_eq!(m.dimensions, (n, n));
        assert_eq!(m.matrix.len(), 4usize.pow(power));
        let mut sorted = m.matrix.clone();
        sorted.sort();
        sorted.dedup();
        assert_eq!(sorted.len(), m.matrix.len());
        assert!(m.matrix.iter().all(|&v| v < 255));
    }
}

#[test]
fn bayer_power_four_has_colliding_cells() {
    let m = ThresholdMatrix::bayer_matrix(4).unwrap();
    assert_eq!(m.matrix.len(), 256);
    let mut sorted = m.matrix.clone();
    sorted.sort();
    sorted.dedup();
    assert!(sorted.len() < 256);
}

#[test]
fn bayer_look_up_is_periodic_and_least_at_origin() {
    for power in 1..=4u32 {
        let m = ThresholdMatrix::bayer_matrix(power).unwrap();
        let n = 1u32 << power;
        assert_eq!(m.look_up(0, 0), 0);
        for y in 0..n {
            for x in 0..n {
                let v = m.look_up(x, y);
                assert!(m.look_up(0, 0) <= v);
                assert_eq!(m.look_up(x + n, y), v);
                assert_eq!(m.look_up(x, y + n), v);
                assert_eq!(m.look_up(x + 3 * n, y + 5 * n), v);
            }
        }
    }
}

#[test]
fn bayer_rejects_out_of_range_power() {
    assert!(matches!(ThresholdMatrix::bayer_matrix(0), Err(DitherpackError::InvalidMethodParameter)));
    assert!(matches!(ThresholdMatrix::bayer_matrix(16), Err(DitherpackError::InvalidMethodParameter)));
}

#[test]
fn bayer_power_eight_by_eight_corners() {
    let m = ThresholdMatrix::bayer_matrix(3).unwrap();
    assert_eq!(m.dimensions, (8, 8));
    assert_eq!(m.look_up(0, 0), 0);
    // (1, 0): x XOR y = 1, so only the top digit is set: 2 * 16 = 32 → 32 * 255 / 64.
    assert_eq!(m.look_up(1, 0), 127);
    assert_eq!(m.look_up(0, 1), 191);
}

#[test]
fn white_noise_has_image_dimensions() {
    let m = ThresholdMatrix::white_noise((7, 5)).unwrap();
    assert_eq!(m.dimensions, (7, 5));
    assert_eq!(m.matrix.len(), 35);
    for y in 0..5 {
        for x in 0..7 {
            assert_eq!(m.look_up(x, y), m.matrix[(y * 7 + x) as usize]);
        }
    }
}

#[test]
fn blue_noise_copies_tile() {
    let m = ThresholdMatrix::blue_noise((2, 2), vec![10, 20, 30, 40]).unwrap();
    assert_eq!(m.look_up(1, 1), 40);
    assert_eq!(m.look_up(2, 1), 30);
    assert!(ThresholdMatrix::blue_noise((2, 2), vec![1, 2, 3]).is_none());
    assert!(ThresholdMatrix::blue_noise((0, 2), vec![]).is_none());
}

#[test]
fn dither_compares_strictly() {
    let m = ThresholdMatrix::bayer_matrix(1).unwrap();
    let img = LumaImage { dimensions: (2, 2), luma: vec![0, 127, 192, 64] };
    let b = dithered_rgb_image(&m, &img);
    assert_eq!(b.dimensions, (2, 2));
    assert_eq!(b.bits, vec![false, false, true, true]);
}

#[test]
fn encode_exact_bytes() {
    let b = Bitmap { dimensions: (3, 1), bits: vec![true, false, true] };
    assert_eq!(encode(&b), vec![3, 0, 0, 0, 1, 0, 0, 0, 0b101]);
    let b = Bitmap { dimensions: (0x0102, 0), bits: vec![] };
    assert_eq!(encode(&b), vec![2, 1, 0, 0, 0, 0, 0, 0]);
}

#[test]
fn codec_round_trip() {
    let bits: Vec<bool> = (0..77).map(|i| i % 3 == 0 || i % 7 == 1).collect();
    let b = Bitmap { dimensions: (11, 7), bits: bits.clone() };
    let bytes = encode(&b);
    assert_eq!(bytes.len(), 8 + 10);
    let d = decode(&bytes).unwrap();
    assert_eq!(d.dimensions, (11, 7));
    assert_eq!(d.bits, bits);
}

#[test]
fn decode_rejects_bad_frames() {
    let b = Bitmap { dimensions: (4, 4), bits: vec![true; 16] };
    let mut bytes = encode(&b);
    assert!(matches!(decode(&bytes[..bytes.len() - 1]), Err(FrameError::Truncated)));
    assert!(matches!(decode(&bytes[..5]), Err(FrameError::Truncated)));
    bytes.push(0);
    assert!(matches!(decode(&bytes), Err(FrameError::TrailingBytes)));
}

#[test]
fn compression_round_trip() {
    let data: Vec<u8> = (0..1000u32).map(|i| (i % 13) as u8).collect();
    let c = compress(&data).unwrap();
    assert_ne!(c, data);
    assert_eq!(&c[..4], &[0x28, 0xB5, 0x2F, 0xFD]);
    assert_eq!(decompress(&c).unwrap(), data);
    assert_eq!(decompress(&compress(&[]).unwrap()).unwrap(), Vec::<u8>::new());
}

#[test]
fn decompress_rejects_garbage() {
    assert!(matches!(decompress(&[1, 2, 3, 4, 5]), Err(DitherpackError::Decompression(_))));
}

#[test]
fn black_image_unpacks_black() {
    for method in [DitherType::Bayer, DitherType::WhiteNoise] {
        let img = constant_image(13, 9, 0);
        let packed = pack(&img, method, &[]).unwrap();
        let out = unpack(&packed).unwrap();
        assert_eq!(out.dimensions, (13, 9));
        assert_eq!(out.pixels.len(), 13 * 9);
        assert!(out.pixels.iter().all(|&p| p == BLACK));
    }
}

#[test]
fn white_image_unpacks_white_with_bayer() {
    let img = constant_image(10, 6, 255);
    let out = unpack(&pack(&img, DitherType::Bayer, &[]).unwrap()).unwrap();
    assert_eq!(out.pixels.len(), 60);
    assert!(out.pixels.iter().all(|&p| p == WHITE));
    assert_eq!(WHITE, 0xFFFF_FFFF);
    assert_eq!(BLACK, 0xFF00_0000);
}

#[test]
fn truncated_frame_unpacks_to_decode_error() {
    let b = Bitmap { dimensions: (9, 9), bits: vec![false; 81] };
    let frame = encode(&b);
    let short = &frame[..frame.len() - 2];
    assert!(matches!(unpack_frame(short), Err(DitherpackError::Decode(FrameError::Truncated))));
    let packed = compress(short).unwrap();
    assert!(matches!(unpack(&packed), Err(DitherpackError::Decode(FrameError::Truncated))));
}

#[test]
fn blue_noise_with_bad_tile_is_asset_error() {
    let img = constant_image(2, 2, 100);
    assert!(matches!(threshold_matrix(DitherType::BlueNoise, &img, &[0, 1, 2]), Err(DitherpackError::Asset)));
    assert!(matches!(pack(&img, DitherType::BlueNoise, &[0, 1, 2]), Err(DitherpackError::Asset)));
}

#[test]
fn empty_image_packs() {
    let img = constant_image(0, 0, 0);
    let out = unpack(&pack(&img, DitherType::WhiteNoise, &[]).unwrap()).unwrap();
    assert_eq!(out.dimensions, (0, 0));
    assert!(out.pixels.is_empty());
}

#[test]
fn white_noise_from_holds_drawn_bytes() {
    let m = ThresholdMatrix::white_noise_from((3, 2), vec![9, 8, 7, 6, 5, 4]).unwrap();
    assert_eq!(m.dimensions, (3, 2));
    assert_eq!(m.look_up(0, 1), 6);
    assert_eq!(m.look_up(5, 3), 4);
    assert!(ThresholdMatrix::white_noise_from((3, 2), vec![1, 2]).is_none());
    assert_eq!(ThresholdMatrix::white_noise_from((0, 4), vec![]).unwrap().matrix.len(), 0);
}

#[test]
fn bayer_pack_is_deterministic() {
    let img = LumaImage { dimensions: (5, 3), luma: (0..15u8).map(|v| v * 17).collect() };
    let a = pack(&img, DitherType::Bayer, &[]).unwrap();
    let b = pack(&img, DitherType::Bayer, &[]).unwrap();
    assert_eq!(a, b);
}

#[test]
fn truncated_stream_fails_to_decompress() {
    let img = constant_image(16, 16, 90);
    let packed = pack(&img, DitherType::Bayer, &[]).unwrap();
    for cut in [1, packed.len() / 2, packed.len() - 1] {
        assert!(matches!(unpack(&packed[..cut]), Err(DitherpackError::Decompression(_))));
    }
}

#[test]
fn bayer_cells_are_scaled_levels_once_each() {
    for power in 1..=4u32 {
        let m = ThresholdMatrix::bayer_matrix(power).unwrap();
        let count = 4u32.pow(power);
        let mut got = m.matrix.clone();
        got.sort();
        let want: Vec<u8> = (0..count).map(|v| (v * 255 / count) as u8).collect();
        assert_eq!(got, want);
    }
}
