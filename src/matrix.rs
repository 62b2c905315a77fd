//! Threshold matrices: a grid of byte thresholds that tiles the plane.

use vstd::prelude::*;
use crate::error::DitherpackError;
use rand::RngCore;

verus! {

/// Largest Bayer power accepted: `4^15` cells still index with `u32`.
pub const MAX_BAYER_POWER: u32 = 15;

/// A `width × height` grid of thresholds, row-major, read with toroidal wrap.
pub struct ThresholdMatrix {
    pub dimensions: (u32, u32),
    pub matrix: Vec<u8>,
}

impl ThresholdMatrix {
    /// The cell count matches the dimensions.
    pub open spec fn wf(&self) -> bool {
        self.matrix@.len() == self.dimensions.0 as nat * self.dimensions.1 as nat
    }

    /// Both dimensions are positive, so that every coordinate wraps to a cell.
    pub open spec fn tiles(&self) -> bool {
        self.wf() && self.dimensions.0 > 0 && self.dimensions.1 > 0
    }

    /// Index of the cell that `(x, y)` wraps to.
    pub open spec fn wrap_index(&self, x: int, y: int) -> int {
        (y % self.dimensions.1 as int) * self.dimensions.0 as int + x % self.dimensions.0 as int
    }

    /// Threshold at `(x, y)`.
    pub open spec fn at(&self, x: int, y: int) -> u8 {
        self.matrix@[self.wrap_index(x, y)]
    }

    /// Threshold at `(x, y)`, coordinates taken modulo the dimensions.
    pub fn look_up(&self, x: u32, y: u32) -> (r: u8)
        requires
            self.tiles(),
        ensures
            0 <= self.wrap_index(x as int, y as int) < self.matrix@.len(),
            r == self.at(x as int, y as int),
    {
        let w = self.dimensions.0;
        let h = self.dimensions.1;
        let j = x % w;
        let i = y % h;
        let len = self.matrix.len();
        proof {
            lemma_cell_index(w as int, h as int, j as int, i as int);
            assert(i as int * w as int <= i as int * w as int + j as int);
        }
        let idx: usize = (i as usize) * (w as usize) + (j as usize);
        self.matrix[idx]
    }

    /// A Bayer matrix of side `2^power`, for `1 <= power <= MAX_BAYER_POWER`.
    pub fn bayer_matrix(power: u32) -> (r: Result<ThresholdMatrix, DitherpackError>)
        ensures
            r is Ok <==> 1 <= power <= MAX_BAYER_POWER,
            r matches Err(e) ==> e is InvalidMethodParameter,
            r matches Ok(m) ==> m.tiles() && m.dimensions.0 as nat == side(power as nat) && m.dimensions.1 as nat == side(
                power as nat,
            )
                && m.matrix@ == bayer_cells(power as nat),
    {
        if power == 0 || power > MAX_BAYER_POWER {
            return Err(DitherpackError::InvalidMethodParameter);
        }
        proof {
            lemma_side_bounds(power as nat);
        }
        let mut n: u32 = 1;
        let mut k: u32 = 0;
        while k < power
            invariant
                k <= power <= MAX_BAYER_POWER,
                n == side(k as nat),
                side(k as nat) <= side(power as nat),
                side(power as nat) <= 32768,
            decreases power - k,
        {
            proof {
                lemma_side_monotone((k + 1) as nat, power as nat);
            }
            n = n * 2;
            k = k + 1;
        }
        proof {
            lemma_side_sq(power as nat);
            assert(n as int * n as int <= 32768 * 32768) by (nonlinear_arith)
                requires
                    n <= 32768,
            ;
        }
        let count: u32 = n * n;
        let mut matrix: Vec<u8> = Vec::new();
        let mut i: u32 = 0;
        while i < count
            invariant
                n == side(power as nat),
                1 <= power <= MAX_BAYER_POWER,
                count == n * n,
                count == pow4(power as nat),
                i <= count,
                matrix@ == Seq::new(i as nat, |c: int| bayer_cell(power as nat, c % n as int, c / n as int)),
            decreases count - i,
        {
            let x = i % n;
            let y = i / n;
            proof {
                lemma_cell_coords(n as int, i as int);
            }
            let v = bayer_value(power, x, y);
            proof {
                lemma_bayer_value_bound(power as nat, x as nat, y as nat);
                lemma_normalize_below(v as nat, count as nat);
            }
            let t: u64 = (v as u64) * 255 / (count as u64);
            matrix.push(t as u8);
            i = i + 1;
            assert(matrix@ =~= Seq::new(i as nat, |c: int| bayer_cell(power as nat, c % n as int, c / n as int)));
        }
        proof {
            assert(matrix@.len() == n as nat * n as nat);
        }
        Ok(ThresholdMatrix { dimensions: (n, n), matrix })
    }

    /// A matrix of the given dimensions filled with bytes drawn from the operating
    /// system's random source; `None` if that source fails.
    pub fn white_noise(dimensions: (u32, u32)) -> (r: Option<ThresholdMatrix>)
        requires
            dimensions.0 as nat * dimensions.1 as nat <= usize::MAX,
        ensures
            r matches Some(m) ==> m.wf() && m.dimensions == dimensions,
    {
        let count: usize = (dimensions.0 as usize) * (dimensions.1 as usize);
        match random_bytes(count) {
            Some(bytes) => ThresholdMatrix::white_noise_from(dimensions, bytes),
            None => None,
        }
    }

    /// A matrix of the given dimensions holding `bytes`, row-major; `None` unless
    /// there is one byte per cell.
    pub fn white_noise_from(dimensions: (u32, u32), bytes: Vec<u8>) -> (r: Option<ThresholdMatrix>)
        ensures
            r is Some <==> bytes@.len() == dimensions.0 as nat * dimensions.1 as nat,
            r matches Some(m) ==> m.wf() && m.dimensions == dimensions && m.matrix@ == bytes@,
    {
        assert((dimensions.0 as nat) * (dimensions.1 as nat) <= u64::MAX) by (nonlinear_arith)
            requires
                dimensions.0 <= u32::MAX,
                dimensions.1 <= u32::MAX,
        ;
        if (bytes.len() as u64) != (dimensions.0 as u64) * (dimensions.1 as u64) {
            return None;
        }
        Some(ThresholdMatrix { dimensions, matrix: bytes })
    }

    /// A matrix holding the intensities of a grayscale tile, row-major.
    pub fn blue_noise(dimensions: (u32, u32), luma: Vec<u8>) -> (r: Option<ThresholdMatrix>)
        ensures
            r is Some <==> luma@.len() == dimensions.0 as nat * dimensions.1 as nat && dimensions.0 > 0
                && dimensions.1 > 0,
            r matches Some(m) ==> m.tiles() && m.dimensions == dimensions && m.matrix@ == luma@,
    {
        if dimensions.0 == 0 || dimensions.1 == 0 {
            return None;
        }
        assert((dimensions.0 as nat) * (dimensions.1 as nat) <= u64::MAX) by (nonlinear_arith)
            requires
                dimensions.0 <= u32::MAX,
                dimensions.1 <= u32::MAX,
        ;
        if (luma.len() as u64) != (dimensions.0 as u64) * (dimensions.1 as u64) {
            return None;
        }
        Some(ThresholdMatrix { dimensions, matrix: luma })
    }
}

/// Relies on `rand::rngs::OsRng::try_fill_bytes`: `n` bytes from the operating
/// system's random source, or `None` if that source reports an error.
#[verifier::external_body]
fn random_bytes(n: usize) -> (r: Option<Vec<u8>>)
    ensures
        r matches Some(v) ==> v@.len() == n,
{
    let mut v = vec![0u8; n];
    match rand::rngs::OsRng.try_fill_bytes(&mut v) {
        Ok(()) => Some(v),
        Err(_) => None,
    }
}

/// `2^k`.
pub open spec fn side(k: nat) -> nat
    decreases k,
{
    if k == 0 {
        1
    } else {
        2 * side((k - 1) as nat)
    }
}

/// `4^k`.
pub open spec fn pow4(k: nat) -> nat
    decreases k,
{
    if k == 0 {
        1
    } else {
        4 * pow4((k - 1) as nat)
    }
}

/// The base-4 digit that coordinate bits `xs % 2` and `ys % 2` give: the bit of
/// `y` low, the bit of `x XOR y` high.
pub open spec fn digit(xs: nat, ys: nat) -> nat {
    ys % 2 + 2 * ((xs % 2 + ys % 2) % 2)
}

/// Interleaves the `k` low bits of `xs` and `ys` into `acc`: the lowest
/// coordinate bits become the most significant digit.
pub open spec fn interleave(k: nat, xs: nat, ys: nat, acc: nat) -> nat
    decreases k,
{
    if k == 0 {
        acc
    } else {
        interleave((k - 1) as nat, xs / 2, ys / 2, acc * 4 + digit(xs, ys))
    }
}

/// The Bayer rank of cell `(x, y)` in the matrix of side `2^power`, in `0 .. 4^power`.
pub open spec fn bayer_rank(power: nat, x: nat, y: nat) -> nat {
    interleave(power, x, y, 0)
}

/// The Bayer rank of cell `(x, y)` scaled to a byte: `rank * 255 / 4^power`.
pub open spec fn bayer_cell(power: nat, x: int, y: int) -> u8 {
    (bayer_rank(power, x as nat, y as nat) * 255 / pow4(power)) as u8
}

/// The cells of the Bayer matrix of side `2^power`, row-major.
pub open spec fn bayer_cells(power: nat) -> Seq<u8> {
    Seq::new(pow4(power), |c: int| bayer_cell(power, c % side(power) as int, c / side(power) as int))
}

fn bayer_value(power: u32, x: u32, y: u32) -> (r: u32)
    requires
        power <= MAX_BAYER_POWER,
    ensures
        r == bayer_rank(power as nat, x as nat, y as nat),
{
    let mut xs = x;
    let mut ys = y;
    let mut v: u32 = 0;
    let mut k: u32 = power;
    proof {
        lemma_pow4_monotone(0, power as nat);
        lemma_pow4_15();
    }
    while k > 0
        invariant
            k <= power <= MAX_BAYER_POWER,
            interleave(power as nat, x as nat, y as nat, 0) == interleave(k as nat, xs as nat, ys as nat, v as nat),
            v < pow4((power - k) as nat),
            pow4((power - k) as nat) <= pow4(15),
            pow4(15) == 1073741824,
        decreases k,
    {
        proof {
            lemma_pow4_monotone((power - k + 1) as nat, 15);
        }
        let d: u32 = ys % 2 + 2 * ((xs % 2 + ys % 2) % 2);
        v = v * 4 + d;
        xs = xs / 2;
        ys = ys / 2;
        k = k - 1;
    }
    v
}

proof fn lemma_cell_index(w: int, h: int, j: int, i: int)
    requires
        0 <= j < w,
        0 <= i < h,
    ensures
        0 <= i * w + j < w * h,
{
    assert(i * w + j < w * h) by (nonlinear_arith)
        requires
            0 <= j < w,
            0 <= i < h,
    ;
    assert(0 <= i * w) by (nonlinear_arith)
        requires
            0 <= w,
            0 <= i,
    ;
}

proof fn lemma_cell_coords(n: int, c: int)
    requires
        n > 0,
        0 <= c,
    ensures
        c == n * (c / n) + c % n,
        0 <= c % n < n,
{
    vstd::arithmetic::div_mod::lemma_fundamental_div_mod(c, n);
}

proof fn lemma_side_bounds(k: nat)
    requires
        k <= 15,
    ensures
        1 <= side(k) <= 32768,
{
    lemma_side_monotone(0, k);
    lemma_side_monotone(k, 15);
    reveal_with_fuel(side, 16);
}

proof fn lemma_side_monotone(a: nat, b: nat)
    requires
        a <= b,
    ensures
        side(a) <= side(b),
    decreases b - a,
{
    if a < b {
        lemma_side_monotone(a, (b - 1) as nat);
    }
}

proof fn lemma_pow4_monotone(a: nat, b: nat)
    requires
        a <= b,
    ensures
        pow4(a) <= pow4(b),
    decreases b - a,
{
    if a < b {
        lemma_pow4_monotone(a, (b - 1) as nat);
    }
}

proof fn lemma_pow4_15()
    ensures
        pow4(15) == 1073741824,
{
    reveal_with_fuel(pow4, 16);
}

proof fn lemma_side_sq(k: nat)
    ensures
        side(k) * side(k) == pow4(k),
    decreases k,
{
    if k > 0 {
        lemma_side_sq((k - 1) as nat);
        let s = side((k - 1) as nat);
        assert(side(k) == 2 * s);
        assert(pow4(k) == 4 * pow4((k - 1) as nat));
        let a = side(k);
        let b = pow4(k);
        let q = pow4((k - 1) as nat);
        assert(a * a == b) by (nonlinear_arith)
            requires
                a == 2 * s,
                b == 4 * q,
                s * s == q,
        ;
    } else {
        let a = side(k);
        assert(a == 1 && pow4(k) == 1);
        assert(a * a == 1) by (nonlinear_arith)
            requires
                a == 1,
        ;
    }
}

/// Interleaving `k` more digits into `acc` shifts `acc` up by `4^k`.
proof fn lemma_interleave_acc(k: nat, xs: nat, ys: nat, acc: nat)
    ensures
        interleave(k, xs, ys, acc) == acc * pow4(k) + interleave(k, xs, ys, 0),
    decreases k,
{
    if k > 0 {
        let d = digit(xs, ys);
        lemma_interleave_acc((k - 1) as nat, xs / 2, ys / 2, acc * 4 + d);
        lemma_interleave_acc((k - 1) as nat, xs / 2, ys / 2, d);
        let p = pow4((k - 1) as nat);
        assert(pow4(k) == 4 * p);
        assert(interleave(k, xs, ys, acc) == interleave((k - 1) as nat, xs / 2, ys / 2, acc * 4 + d));
        assert(interleave(k, xs, ys, 0) == interleave((k - 1) as nat, xs / 2, ys / 2, 0 * 4 + d));
        assert(0 * 4 + d == d);
        let i0 = interleave((k - 1) as nat, xs / 2, ys / 2, 0);
        let pk = pow4(k);
        assert(((acc * 4 + d) * p + i0) as int == acc * pk + (d * p + i0)) by (nonlinear_arith)
            requires
                pk == 4 * p,
        ;
    } else {
        assert(pow4(0) == 1);
        assert(acc * 1 == acc);
    }
}

proof fn lemma_interleave_bound(k: nat, xs: nat, ys: nat)
    ensures
        interleave(k, xs, ys, 0) < pow4(k),
    decreases k,
{
    if k > 0 {
        let d = digit(xs, ys);
        let r = interleave((k - 1) as nat, xs / 2, ys / 2, 0);
        let p = pow4((k - 1) as nat);
        lemma_interleave_bound((k - 1) as nat, xs / 2, ys / 2);
        lemma_interleave_acc((k - 1) as nat, xs / 2, ys / 2, d);
        assert(d * p + r < 4 * p) by (nonlinear_arith)
            requires
                d <= 3,
                r < p,
        ;
    }
}

proof fn lemma_bayer_value_bound(power: nat, x: nat, y: nat)
    ensures
        bayer_rank(power, x, y) < pow4(power),
{
    lemma_interleave_bound(power, x, y);
}

/// A rank below `count` scales to a byte below 255.
proof fn lemma_normalize_below(v: nat, count: nat)
    requires
        v < count,
    ensures
        v * 255 / count < 255,
{
    let x = (v * 255) as int;
    let c = count as int;
    vstd::arithmetic::div_mod::lemma_fundamental_div_mod(x, c);
    vstd::arithmetic::div_mod::lemma_mod_bound(x, c);
    assert(x / c < 255) by (nonlinear_arith)
        requires
            x == (x / c) * c + x % c,
            0 <= x % c,
            x < 255 * c,
            c > 0,
    ;
}

/// The side of the Bayer matrix of power 3.
pub proof fn reveal_side_3()
    ensures
        side(3) == 8,
{
    reveal_with_fuel(side, 4);
}

/// Every coordinate pair wraps to a cell of a tiling matrix.
pub proof fn lemma_wrap_index_in_range(m: ThresholdMatrix, x: int, y: int)
    requires
        m.tiles(),
    ensures
        0 <= m.wrap_index(x, y) < m.matrix@.len(),
{
    let w = m.dimensions.0 as int;
    let h = m.dimensions.1 as int;
    vstd::arithmetic::div_mod::lemma_mod_bound(x, w);
    vstd::arithmetic::div_mod::lemma_mod_bound(y, h);
    lemma_cell_index(w, h, x % w, y % h);
}

/// Inside the matrix's own bounds a look-up reads cell `y * width + x`, which lies
/// within the matrix: so it is for a white-noise matrix, whose dimensions are the image's.
pub proof fn lemma_look_up_in_bounds(m: ThresholdMatrix, x: int, y: int)
    requires
        m.tiles(),
        0 <= x < m.dimensions.0,
        0 <= y < m.dimensions.1,
    ensures
        m.wrap_index(x, y) == y * m.dimensions.0 + x,
        0 <= m.wrap_index(x, y) < m.matrix@.len(),
{
    vstd::arithmetic::div_mod::lemma_small_mod(x as nat, m.dimensions.0 as nat);
    vstd::arithmetic::div_mod::lemma_small_mod(y as nat, m.dimensions.1 as nat);
    lemma_wrap_index_in_range(m, x, y);
}

/// Look-ups repeat with the matrix's width along x and its height along y.
pub proof fn lemma_look_up_periodic(m: ThresholdMatrix, x: int, y: int)
    requires
        m.tiles(),
    ensures
        m.at(x + m.dimensions.0, y) == m.at(x, y),
        m.at(x, y + m.dimensions.1) == m.at(x, y),
{
    let w = m.dimensions.0 as int;
    let h = m.dimensions.1 as int;
    vstd::arithmetic::div_mod::lemma_mod_add_multiples_vanish(x, w);
    vstd::arithmetic::div_mod::lemma_mod_add_multiples_vanish(y, h);
}

proof fn lemma_interleave_zero(k: nat)
    ensures
        interleave(k, 0, 0, 0) == 0,
    decreases k,
{
    if k > 0 {
        assert(digit(0, 0) == 0);
        lemma_interleave_zero((k - 1) as nat);
    }
}

/// A Bayer matrix reads 0, its least value, at the origin.
pub proof fn lemma_bayer_origin_is_least(m: ThresholdMatrix, power: nat, x: int, y: int)
    requires
        1 <= power <= MAX_BAYER_POWER,
        m.dimensions.0 as nat == side(power),
        m.dimensions.1 as nat == side(power),
        m.matrix@ == bayer_cells(power),
    ensures
        m.at(0, 0) == 0,
        m.at(0, 0) <= m.at(x, y),
{
    lemma_side_bounds(power);
    lemma_side_sq(power);
    lemma_interleave_zero(power);
    lemma_pow4_monotone(0, power);
    let n = side(power) as int;
    vstd::arithmetic::div_mod::lemma_small_mod(0, side(power));
    vstd::arithmetic::div_mod::lemma_div_of0(n);
    vstd::arithmetic::div_mod::lemma_div_of0(pow4(power) as int);
    assert(m.wrap_index(0, 0) == 0);
    assert(bayer_rank(power, 0, 0) == 0);
    assert(bayer_cells(power)[0] == bayer_cell(power, 0, 0));
}

/// Every cell of a Bayer matrix is below 255, so full-intensity luma always exceeds it.
pub proof fn lemma_bayer_below_white(power: nat, c: int)
    requires
        0 <= c < bayer_cells(power).len(),
    ensures
        bayer_cells(power)[c] < 255,
{
    let n = side(power) as int;
    let x = c % n;
    let y = c / n;
    lemma_bayer_value_bound(power, x as nat, y as nat);
    lemma_normalize_below(bayer_rank(power, x as nat, y as nat), pow4(power));
}

/// Two digits times a power of four, plus smaller remainders, agree only digit by digit.
proof fn lemma_digit_split(d1: nat, r1: nat, d2: nat, r2: nat, p: nat)
    requires
        r1 < p,
        r2 < p,
        d1 * p + r1 == d2 * p + r2,
    ensures
        d1 == d2,
        r1 == r2,
{
    if d1 < d2 {
        assert(d1 * p + r1 < d2 * p + r2) by (nonlinear_arith)
            requires
                d1 < d2,
                r1 < p,
        ;
    } else if d2 < d1 {
        assert(d2 * p + r2 < d1 * p + r1) by (nonlinear_arith)
            requires
                d2 < d1,
                r2 < p,
        ;
    }
}

/// Interleaving is one-to-one on coordinates below `2^k`.
proof fn lemma_interleave_injective(k: nat, x1: nat, y1: nat, x2: nat, y2: nat)
    requires
        x1 < side(k),
        y1 < side(k),
        x2 < side(k),
        y2 < side(k),
        interleave(k, x1, y1, 0) == interleave(k, x2, y2, 0),
    ensures
        x1 == x2,
        y1 == y2,
    decreases k,
{
    if k > 0 {
        let k1 = (k - 1) as nat;
        let d1 = digit(x1, y1);
        let d2 = digit(x2, y2);
        lemma_interleave_acc(k1, x1 / 2, y1 / 2, d1);
        lemma_interleave_acc(k1, x2 / 2, y2 / 2, d2);
        lemma_interleave_bound(k1, x1 / 2, y1 / 2);
        lemma_interleave_bound(k1, x2 / 2, y2 / 2);
        assert(interleave(k, x1, y1, 0) == interleave(k1, x1 / 2, y1 / 2, 0 * 4 + d1));
        assert(interleave(k, x2, y2, 0) == interleave(k1, x2 / 2, y2 / 2, 0 * 4 + d2));
        assert(0 * 4 + d1 == d1 && 0 * 4 + d2 == d2);
        lemma_digit_split(
            d1,
            interleave(k1, x1 / 2, y1 / 2, 0),
            d2,
            interleave(k1, x2 / 2, y2 / 2, 0),
            pow4(k1),
        );
        lemma_interleave_injective(k1, x1 / 2, y1 / 2, x2 / 2, y2 / 2);
    } else {
        assert(side(0) == 1);
    }
}

/// Scaling ranks below `4^power <= 255` to bytes keeps them apart.
proof fn lemma_normalize_injective(r1: nat, r2: nat, count: nat)
    requires
        0 < count <= 255,
        r1 < r2,
    ensures
        r1 * 255 / count < r2 * 255 / count,
{
    let a = (r1 * 255) as int;
    let b = (r2 * 255) as int;
    let c = count as int;
    assert(b >= a + c) by (nonlinear_arith)
        requires
            r1 < r2,
            a == r1 * 255,
            b == r2 * 255,
            c <= 255,
    ;
    vstd::arithmetic::div_mod::lemma_div_is_ordered(a + c, b, c);
    vstd::arithmetic::div_mod::lemma_div_plus_one(a, c);
}

/// For powers 1 to 3 the Bayer matrix has `4^power` cells, all distinct, and it
/// repeats with period `2^power` along both axes.
pub proof fn lemma_bayer_distinct_and_periodic(m: ThresholdMatrix, power: nat, c1: int, c2: int, x: int, y: int)
    requires
        1 <= power <= 3,
        m.dimensions.0 as nat == side(power),
        m.dimensions.1 as nat == side(power),
        m.matrix@ == bayer_cells(power),
        0 <= c1 < m.matrix@.len(),
        0 <= c2 < m.matrix@.len(),
        c1 != c2,
    ensures
        m.matrix@.len() == pow4(power),
        m.matrix@[c1] != m.matrix@[c2],
        m.at(x + side(power), y) == m.at(x, y),
        m.at(x, y + side(power)) == m.at(x, y),
{
    lemma_side_bounds(power);
    lemma_side_sq(power);
    lemma_pow4_monotone(power, 3);
    reveal_with_fuel(pow4, 4);
    lemma_look_up_periodic(m, x, y);
    lemma_cell_ranks_distinct(power, c1, c2);
    lemma_cell_ranks_distinct(power, c2, c1);
    let r1 = cell_rank(power, c1) as nat;
    let r2 = cell_rank(power, c2) as nat;
    lemma_normalize_below(r1, pow4(power));
    lemma_normalize_below(r2, pow4(power));
    if r1 < r2 {
        lemma_normalize_injective(r1, r2, pow4(power));
    } else {
        lemma_normalize_injective(r2, r1, pow4(power));
    }
}

/// The Bayer rank of cell `c` of the matrix of side `2^power`, row-major.
pub open spec fn cell_rank(power: nat, c: int) -> int {
    bayer_rank(power, (c % side(power) as int) as nat, (c / side(power) as int) as nat) as int
}

/// Distinct cells of a Bayer matrix have distinct ranks, all below `4^power`.
proof fn lemma_cell_ranks_distinct(power: nat, c1: int, c2: int)
    requires
        power <= MAX_BAYER_POWER,
        0 <= c1 < pow4(power),
        0 <= c2 < pow4(power),
        c1 != c2,
    ensures
        cell_rank(power, c1) != cell_rank(power, c2),
        0 <= cell_rank(power, c1) < pow4(power),
{
    lemma_side_bounds(power);
    lemma_side_sq(power);
    let n = side(power) as int;
    lemma_cell_coords(n, c1);
    lemma_cell_coords(n, c2);
    lemma_pixel_rows(c1, n);
    lemma_pixel_rows(c2, n);
    let (x1, y1) = (c1 % n, c1 / n);
    let (x2, y2) = (c2 % n, c2 / n);
    if cell_rank(power, c1) == cell_rank(power, c2) {
        lemma_interleave_injective(power, x1 as nat, y1 as nat, x2 as nat, y2 as nat);
    }
    lemma_interleave_bound(power, x1 as nat, y1 as nat);
}

/// For every power the cells of the Bayer matrix take each rank in `0 .. 4^power`
/// exactly once, each cell holding its rank scaled to a byte as `rank * 255 / 4^power`.
pub proof fn lemma_bayer_ranks_permute(power: nat, v: int)
    requires
        1 <= power <= MAX_BAYER_POWER,
        0 <= v < pow4(power),
    ensures
        forall|c: int| 0 <= c < pow4(power) ==> 0 <= #[trigger] cell_rank(power, c) < pow4(power)
            && bayer_cells(power)[c] == (cell_rank(power, c) * 255 / pow4(power) as int) as u8,
        forall|c1: int, c2: int|
            0 <= c1 < pow4(power) && 0 <= c2 < pow4(power) && c1 != c2 ==> #[trigger] cell_rank(power, c1)
                != #[trigger] cell_rank(power, c2),
        exists|c: int| 0 <= c < pow4(power) && cell_rank(power, c) == v,
{
    let count = pow4(power) as int;
    let cells = vstd::set_lib::set_int_range(0, count);
    let f = |c: int| cell_rank(power, c);
    assert forall|c: int| 0 <= c < count implies 0 <= #[trigger] cell_rank(power, c) < count by {
        lemma_side_bounds(power);
        lemma_side_sq(power);
        let n = side(power) as int;
        lemma_cell_coords(n, c);
        lemma_pixel_rows(c, n);
        lemma_interleave_bound(power, (c % n) as nat, (c / n) as nat);
    }
    assert forall|c1: int, c2: int|
        0 <= c1 < count && 0 <= c2 < count && c1 != c2 implies #[trigger] cell_rank(power, c1)
            != #[trigger] cell_rank(power, c2) by {
        lemma_cell_ranks_distinct(power, c1, c2);
    }
    vstd::set_lib::lemma_int_range(0, count);
    assert(vstd::relations::injective_on(f, cells));
    let ranks = cells.map(f);
    vstd::set_lib::lemma_map_size(cells, ranks, f);
    assert(ranks.subset_of(cells));
    vstd::set_lib::lemma_subset_equality(ranks, cells);
    assert(cells.contains(v));
    assert(ranks.contains(v));
    let c = choose|c: int| cells.contains(c) && f(c) == v;
    assert(0 <= c < count && cell_rank(power, c) == v);
}

proof fn lemma_pixel_rows(c: int, n: int)
    requires
        n > 0,
        0 <= c < n * n,
    ensures
        0 <= c / n < n,
{
    vstd::arithmetic::div_mod::lemma_div_pos_is_pos(c, n);
    vstd::arithmetic::div_mod::lemma_fundamental_div_mod(c, n);
    vstd::arithmetic::div_mod::lemma_mod_bound(c, n);
    assert(c / n < n) by (nonlinear_arith)
        requires
            c == n * (c / n) + c % n,
            0 <= c % n,
            c < n * n,
            n > 0,
    ;
}

} // verus!
