//! Framing of a one-bit-per-pixel bitmap as bytes: width and height as
//! little-endian `u32`, then the bits packed eight to a byte, least
//! significant bit first.

use vstd::prelude::*;

verus! {

/// A black-and-white bitmap; bit `y * width + x` is the pixel at `(x, y)`,
/// `true` for white.
pub struct Bitmap {
    pub dimensions: (u32, u32),
    pub bits: Vec<bool>,
}

impl Bitmap {
    /// The bit count matches the dimensions.
    pub open spec fn wf(&self) -> bool {
        self.bits@.len() == self.dimensions.0 as nat * self.dimensions.1 as nat
    }
}

/// Why a byte frame does not hold a bitmap.
#[derive(Clone, Copy, Debug, PartialEq, Eq, Structural)]
pub enum FrameError {
    /// Fewer bytes than the header and the declared bits need.
    Truncated,
    /// More bytes than the header and the declared bits need.
    TrailingBytes,
    /// The declared bit count does not fit in memory on this machine.
    TooLarge,
}

/// Bit `k` (0 is the least significant) of a byte.
pub open spec fn bit_at(b: u8, k: u8) -> bool {
    (b >> k) & 1u8 == 1u8
}

/// The byte whose bits, from the least significant, are `b0` to `b7`.
pub open spec fn byte_of(b0: bool, b1: bool, b2: bool, b3: bool, b4: bool, b5: bool, b6: bool, b7: bool) -> u8 {
    (if b0 { 1u8 } else { 0u8 }) | (if b1 { 2u8 } else { 0u8 }) | (if b2 { 4u8 } else { 0u8 })
        | (if b3 { 8u8 } else { 0u8 }) | (if b4 { 16u8 } else { 0u8 }) | (if b5 { 32u8 } else { 0u8 })
        | (if b6 { 64u8 } else { 0u8 }) | (if b7 { 128u8 } else { 0u8 })
}

/// Bit `i` of `bits`, or `false` past its end (padding).
pub open spec fn bit_or_pad(bits: Seq<bool>, i: int) -> bool {
    0 <= i < bits.len() && bits[i]
}

/// The byte that packs the eight bits starting at `start`.
pub open spec fn pack8(bits: Seq<bool>, start: int) -> u8 {
    byte_of(
        bit_or_pad(bits, start),
        bit_or_pad(bits, start + 1),
        bit_or_pad(bits, start + 2),
        bit_or_pad(bits, start + 3),
        bit_or_pad(bits, start + 4),
        bit_or_pad(bits, start + 5),
        bit_or_pad(bits, start + 6),
        bit_or_pad(bits, start + 7),
    )
}

/// Number of bytes that hold `n` bits.
pub open spec fn payload_len(n: nat) -> nat {
    if n % 8 == 0 {
        n / 8
    } else {
        n / 8 + 1
    }
}

/// The four little-endian bytes of `v`.
pub open spec fn le_bytes(v: u32) -> Seq<u8> {
    seq![(v & 0xff) as u8, ((v >> 8u32) & 0xff) as u8, ((v >> 16u32) & 0xff) as u8, ((v >> 24u32) & 0xff) as u8]
}

/// The `u32` whose little-endian bytes are `b[at..at + 4]`.
pub open spec fn read_u32(b: Seq<u8>, at: int) -> u32 {
    (b[at] as u32) | ((b[at + 1] as u32) << 8u32) | ((b[at + 2] as u32) << 16u32) | ((b[at + 3] as u32) << 24u32)
}

/// The frame of a bitmap with dimensions `(w, h)` and bits `bits`.
pub open spec fn frame_of(w: u32, h: u32, bits: Seq<bool>) -> Seq<u8> {
    le_bytes(w) + le_bytes(h) + Seq::new(payload_len(bits.len()), |j: int| pack8(bits, 8 * j))
}

/// The `n` bits that a frame carries after its header.
pub open spec fn frame_bits(bytes: Seq<u8>, n: nat) -> Seq<bool> {
    Seq::new(n, |i: int| bit_at(bytes[8 + i / 8], (i % 8) as u8))
}

/// Bit count that a frame declares.
pub open spec fn declared_bits(bytes: Seq<u8>) -> nat {
    read_u32(bytes, 0) as nat * read_u32(bytes, 4) as nat
}

/// What decoding a frame gives: an error, or dimensions and bits.
pub open spec fn decode_spec(bytes: Seq<u8>) -> Result<(u32, u32, Seq<bool>), FrameError> {
    if bytes.len() < 8 || bytes.len() < 8 + payload_len(declared_bits(bytes)) {
        Err(FrameError::Truncated)
    } else if bytes.len() > 8 + payload_len(declared_bits(bytes)) {
        Err(FrameError::TrailingBytes)
    } else if declared_bits(bytes) > usize::MAX {
        Err(FrameError::TooLarge)
    } else {
        Ok((read_u32(bytes, 0), read_u32(bytes, 4), frame_bits(bytes, declared_bits(bytes))))
    }
}

proof fn lemma_byte_of_bits(b0: bool, b1: bool, b2: bool, b3: bool, b4: bool, b5: bool, b6: bool, b7: bool)
    by (bit_vector)
    ensures
        bit_at(byte_of(b0, b1, b2, b3, b4, b5, b6, b7), 0) == b0,
        bit_at(byte_of(b0, b1, b2, b3, b4, b5, b6, b7), 1) == b1,
        bit_at(byte_of(b0, b1, b2, b3, b4, b5, b6, b7), 2) == b2,
        bit_at(byte_of(b0, b1, b2, b3, b4, b5, b6, b7), 3) == b3,
        bit_at(byte_of(b0, b1, b2, b3, b4, b5, b6, b7), 4) == b4,
        bit_at(byte_of(b0, b1, b2, b3, b4, b5, b6, b7), 5) == b5,
        bit_at(byte_of(b0, b1, b2, b3, b4, b5, b6, b7), 6) == b6,
        bit_at(byte_of(b0, b1, b2, b3, b4, b5, b6, b7), 7) == b7,
{
}

proof fn lemma_le_round_trip(v: u32)
    ensures
        read_u32(le_bytes(v), 0) == v,
{
    let b = le_bytes(v);
    assert(((((v & 0xff) as u8) as u32) | (((((v >> 8u32) & 0xff) as u8) as u32) << 8u32)
        | (((((v >> 16u32) & 0xff) as u8) as u32) << 16u32)
        | (((((v >> 24u32) & 0xff) as u8) as u32) << 24u32)) == v) by (bit_vector);
}

/// Bit `k` of the byte that packs the eight bits at `start` is bit `start + k`.
proof fn lemma_pack8_bit(bits: Seq<bool>, start: int, k: int)
    requires
        0 <= k < 8,
    ensures
        bit_at(pack8(bits, start), k as u8) == bit_or_pad(bits, start + k),
{
    lemma_byte_of_bits(
        bit_or_pad(bits, start),
        bit_or_pad(bits, start + 1),
        bit_or_pad(bits, start + 2),
        bit_or_pad(bits, start + 3),
        bit_or_pad(bits, start + 4),
        bit_or_pad(bits, start + 5),
        bit_or_pad(bits, start + 6),
        bit_or_pad(bits, start + 7),
    );
}

/// Decoding the frame of a well-formed bitmap gives that bitmap back.
pub proof fn lemma_frame_round_trip(w: u32, h: u32, bits: Seq<bool>)
    requires
        bits.len() == w as nat * h as nat,
        bits.len() <= usize::MAX,
    ensures
        decode_spec(frame_of(w, h, bits)) == Ok::<(u32, u32, Seq<bool>), FrameError>((w, h, bits)),
{
    let f = frame_of(w, h, bits);
    lemma_le_round_trip(w);
    lemma_le_round_trip(h);
    assert(f.subrange(0, 4) =~= le_bytes(w));
    assert(f.subrange(4, 8) =~= le_bytes(h));
    assert(read_u32(f, 0) == read_u32(le_bytes(w), 0));
    assert(read_u32(f, 4) == read_u32(le_bytes(h), 0));
    let n = bits.len();
    assert(declared_bits(f) == n);
    assert forall|i: int| 0 <= i < n implies #[trigger] frame_bits(f, n)[i] == bits[i] by {
        let j = i / 8;
        let k = i % 8;
        assert(0 <= j < payload_len(n)) by (nonlinear_arith)
            requires
                0 <= i < n,
                j == i / 8,
                payload_len(n) == if n % 8 == 0 { n as int / 8 } else { n as int / 8 + 1 },
        ;
        assert(f[8 + j] == pack8(bits, 8 * j));
        lemma_pack8_bit(bits, 8 * j, k);
        assert(8 * j + k == i);
    }
    assert(frame_bits(f, n) =~= bits);
}

fn byte_of_exec(b0: bool, b1: bool, b2: bool, b3: bool, b4: bool, b5: bool, b6: bool, b7: bool) -> (r: u8)
    ensures
        r == byte_of(b0, b1, b2, b3, b4, b5, b6, b7),
{
    (if b0 { 1u8 } else { 0u8 }) | (if b1 { 2u8 } else { 0u8 }) | (if b2 { 4u8 } else { 0u8 })
        | (if b3 { 8u8 } else { 0u8 }) | (if b4 { 16u8 } else { 0u8 }) | (if b5 { 32u8 } else { 0u8 })
        | (if b6 { 64u8 } else { 0u8 }) | (if b7 { 128u8 } else { 0u8 })
}

fn bit_or_pad_exec(bits: &Vec<bool>, start: usize, k: usize) -> (r: bool)
    requires
        k < 8,
    ensures
        r == bit_or_pad(bits@, start + k),
{
    if start < bits.len() && k < bits.len() - start {
        bits[start + k]
    } else {
        false
    }
}

fn push_le_u32(out: &mut Vec<u8>, v: u32)
    ensures
        final(out)@ == old(out)@ + le_bytes(v),
{
    out.push((v & 0xff) as u8);
    out.push(((v >> 8u32) & 0xff) as u8);
    out.push(((v >> 16u32) & 0xff) as u8);
    out.push(((v >> 24u32) & 0xff) as u8);
    assert(final(out)@ =~= old(out)@ + le_bytes(v));
}

/// Serialises a bitmap as its frame.
pub fn encode(bitmap: &Bitmap) -> (r: Vec<u8>)
    requires
        bitmap.wf(),
    ensures
        r@ == frame_of(bitmap.dimensions.0, bitmap.dimensions.1, bitmap.bits@),
{
    let bits = &bitmap.bits;
    let mut out: Vec<u8> = Vec::new();
    push_le_u32(&mut out, bitmap.dimensions.0);
    push_le_u32(&mut out, bitmap.dimensions.1);
    let header = Ghost(out@);
    let n: usize = bits.len();
    let nbytes: usize = if n % 8 == 0 { n / 8 } else { n / 8 + 1 };
    let mut j: usize = 0;
    while j < nbytes
        invariant
            nbytes == payload_len(n as nat),
            n == bits@.len(),
            j <= nbytes,
            header@ == le_bytes(bitmap.dimensions.0) + le_bytes(bitmap.dimensions.1),
            out@ == header@ + Seq::new(j as nat, |k: int| pack8(bits@, 8 * k)),
        decreases nbytes - j,
    {
        assert(8 * j < n) by (nonlinear_arith)
            requires
                j < nbytes,
                nbytes == if n % 8 == 0 { n as int / 8 } else { n as int / 8 + 1 },
        ;
        let start: usize = 8 * j;
        let byte = byte_of_exec(
            bit_or_pad_exec(bits, start, 0),
            bit_or_pad_exec(bits, start, 1),
            bit_or_pad_exec(bits, start, 2),
            bit_or_pad_exec(bits, start, 3),
            bit_or_pad_exec(bits, start, 4),
            bit_or_pad_exec(bits, start, 5),
            bit_or_pad_exec(bits, start, 6),
            bit_or_pad_exec(bits, start, 7),
        );
        out.push(byte);
        j = j + 1;
        assert(out@ =~= header@ + Seq::new(j as nat, |k: int| pack8(bits@, 8 * k)));
    }
    out
}

fn read_u32_exec(b: &[u8], at: usize) -> (r: u32)
    requires
        at + 4 <= b@.len(),
    ensures
        r == read_u32(b@, at as int),
{
    (b[at] as u32) | ((b[at + 1] as u32) << 8u32) | ((b[at + 2] as u32) << 16u32) | ((b[at + 3] as u32) << 24u32)
}

/// Reads a bitmap back from its frame.
pub fn decode(bytes: &[u8]) -> (r: Result<Bitmap, FrameError>)
    ensures
        match decode_spec(bytes@) {
            Ok((w, h, bits)) => r matches Ok(b) && b.dimensions == (w, h) && b.bits@ == bits,
            Err(e) => r == Err::<Bitmap, FrameError>(e),
        },
        r matches Ok(b) ==> b.wf(),
{
    if bytes.len() < 8 {
        return Err(FrameError::Truncated);
    }
    let w = read_u32_exec(bytes, 0);
    let h = read_u32_exec(bytes, 4);
    assert((w as nat) * (h as nat) <= u64::MAX) by (nonlinear_arith)
        requires
            w <= u32::MAX,
            h <= u32::MAX,
    ;
    let n: u64 = (w as u64) * (h as u64);
    let need: u64 = if n % 8 == 0 { n / 8 } else { n / 8 + 1 };
    let payload: u64 = (bytes.len() - 8) as u64;
    if payload < need {
        return Err(FrameError::Truncated);
    }
    if payload > need {
        return Err(FrameError::TrailingBytes);
    }
    if n > usize::MAX as u64 {
        return Err(FrameError::TooLarge);
    }
    let n: usize = n as usize;
    let mut bits: Vec<bool> = Vec::new();
    let mut i: usize = 0;
    while i < n
        invariant
            n == declared_bits(bytes@),
            bytes@.len() == 8 + payload_len(n as nat),
            i <= n,
            bits@ == frame_bits(bytes@, i as nat),
        decreases n - i,
    {
        assert(i / 8 < payload_len(n as nat)) by (nonlinear_arith)
            requires
                i < n,
                payload_len(n as nat) == if n % 8 == 0 { n as int / 8 } else { n as int / 8 + 1 },
        ;
        let byte = bytes[8 + i / 8];
        bits.push((byte >> ((i % 8) as u8)) & 1u8 == 1u8);
        i = i + 1;
        assert(bits@ =~= frame_bits(bytes@, i as nat));
    }
    Ok(Bitmap { dimensions: (w, h), bits })
}

} // verus!
