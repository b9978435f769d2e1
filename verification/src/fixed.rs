//! Fixed-point units and integer helpers shared by the geometry modules.
//!
//! Lengths and coordinates are counted in sub-pixel steps (`SUBPIXEL` steps per
//! pixel); dimensionless quantities such as confidences, thresholds and scale
//! ratios are counted in millionths (`PPM`).
use vstd::prelude::*;

verus! {

/// Number of sub-pixel steps in one pixel.
pub const SUBPIXEL: i64 = 64;

/// The value of 1.0 for ratios, confidences and thresholds.
pub const PPM: u32 = 1_000_000;

/// Largest image side, in pixels, that the decoders accept.
pub const MAX_DIMENSION: u32 = 32_768;

/// Largest coordinate, in sub-pixel steps, of a point inside an accepted image.
pub const MAX_COORD: i64 = 2_097_152;

/// Largest number of vertices a polygon may have: with more, the product of
/// area, scale ratio and unclip ratio no longer fits 128 bits.
pub const MAX_VERTICES: u64 = 274_877_906_944;

/// `r` is the integer square root of `n`.
pub open spec fn is_floor_sqrt(n: nat, r: nat) -> bool {
    r * r <= n < (r + 1) * (r + 1)
}

/// The integer square root: the largest `r` with `r * r <= n`.
pub open spec fn floor_sqrt(n: nat) -> nat {
    choose|r: nat| is_floor_sqrt(n, r)
}

/// Every natural number has an integer square root.
pub proof fn lemma_floor_sqrt_exists(n: nat) -> (r: nat)
    ensures
        is_floor_sqrt(n, r),
    decreases n,
{
    if n == 0 {
        assert(0 * 0 == 0 && (0 + 1) * (0 + 1) == 1) by (nonlinear_arith);
        0
    } else {
        let r0 = lemma_floor_sqrt_exists((n - 1) as nat);
        assert((r0 + 1 + 1) * (r0 + 1 + 1) > (r0 + 1) * (r0 + 1)) by (nonlinear_arith);
        if (r0 + 1) * (r0 + 1) <= n {
            (r0 + 1) as nat
        } else {
            r0
        }
    }
}

/// The integer square root is unique.
pub proof fn lemma_floor_sqrt_unique(n: nat, r: nat, s: nat)
    requires
        is_floor_sqrt(n, r),
        is_floor_sqrt(n, s),
    ensures
        r == s,
{
    if r < s {
        assert((r + 1) * (r + 1) <= s * s) by (nonlinear_arith)
            requires
                r + 1 <= s,
        ;
    }
    if s < r {
        assert((s + 1) * (s + 1) <= r * r) by (nonlinear_arith)
            requires
                s + 1 <= r,
        ;
    }
}

/// `floor_sqrt(n)` is the integer square root of `n`, and any `r` that squares
/// to just below `n` is it.
pub proof fn lemma_floor_sqrt(n: nat)
    ensures
        is_floor_sqrt(n, floor_sqrt(n)),
        forall|r: nat| is_floor_sqrt(n, r) ==> r == floor_sqrt(n),
{
    let w = lemma_floor_sqrt_exists(n);
    assert forall|r: nat| is_floor_sqrt(n, r) implies r == floor_sqrt(n) by {
        lemma_floor_sqrt_unique(n, r, floor_sqrt(n));
    }
}

/// The integer square root never exceeds a bound whose square exceeds `n`.
pub proof fn lemma_floor_sqrt_below(n: nat, bound: nat)
    requires
        n < bound * bound,
    ensures
        floor_sqrt(n) < bound,
{
    lemma_floor_sqrt(n);
    let r = floor_sqrt(n);
    if r >= bound {
        assert(bound * bound <= r * r) by (nonlinear_arith)
            requires
                bound <= r,
        ;
    }
}

/// Computes the integer square root by bisection.
pub fn isqrt(n: u64) -> (r: u64)
    ensures
        r == floor_sqrt(n as nat),
        r <= 4_294_967_295,
{
    let mut lo: u64 = 0;
    let mut hi: u64 = 4_294_967_296;
    assert(0 * 0 == 0) by (nonlinear_arith);
    assert(4_294_967_296u64 * 4_294_967_296u64 > u64::MAX) by (nonlinear_arith);
    while hi - lo > 1
        invariant
            lo < hi <= 4_294_967_296,
            lo * lo <= n,
            n < hi * hi,
        decreases hi - lo,
    {
        let mid: u64 = lo + (hi - lo) / 2;
        assert(mid * mid < 18_446_744_073_709_551_616) by (nonlinear_arith)
            requires
                mid < 4_294_967_296,
        ;
        let sq: u64 = mid * mid;
        if sq <= n {
            lo = mid;
        } else {
            hi = mid;
        }
    }
    proof {
        assert(is_floor_sqrt(n as nat, lo as nat));
        lemma_floor_sqrt(n as nat);
    }
    lo
}

/// `v * num / den`, with the quotient rounded toward zero.
pub open spec fn scale_toward_zero(v: int, num: nat, den: nat) -> int {
    if v >= 0 {
        (v * num) / (den as int)
    } else {
        -(((-v) * num) / (den as int))
    }
}

/// Scaling by `num / den` multiplies the magnitude by at most `num`.
pub proof fn lemma_scale_magnitude(v: int, num: nat, den: nat)
    requires
        den > 0,
    ensures
        v >= 0 ==> 0 <= scale_toward_zero(v, num, den) <= v * num,
        v <= 0 ==> v * num <= scale_toward_zero(v, num, den) <= 0,
{
    let m: int = if v >= 0 { v } else { -v };
    assert(0 <= m * num) by (nonlinear_arith)
        requires
            0 <= m,
            0 <= num,
    ;
    assert((-v) * num == -(v * num)) by (nonlinear_arith);
    vstd::arithmetic::div_mod::lemma_div_pos_is_pos(m * num, den as int);
    vstd::arithmetic::div_mod::lemma_div_is_ordered_by_denominator(m * num, 1, den as int);
    vstd::arithmetic::div_mod::lemma_div_basics(m * num);
}

/// Computes `v * num / den` rounded toward zero.
pub fn scale_div(v: i64, num: u64, den: u64) -> (r: i128)
    requires
        den > 0,
    ensures
        r == scale_toward_zero(v as int, num as nat, den as nat),
{
    let neg: bool = v < 0;
    let mag: u128 = if neg { (-(v as i128)) as u128 } else { v as u128 };
    assert(mag * num <= 0x8000_0000_0000_0000 * 0xFFFF_FFFF_FFFF_FFFF) by (nonlinear_arith)
        requires
            mag <= 0x8000_0000_0000_0000,
            num <= 0xFFFF_FFFF_FFFF_FFFF,
    ;
    let prod: u128 = mag * (num as u128);
    let q: u128 = prod / (den as u128);
    proof {
        vstd::arithmetic::div_mod::lemma_div_is_ordered_by_denominator(prod as int, 1, den as int);
        vstd::arithmetic::div_mod::lemma_div_basics(prod as int);
    }
    if neg {
        -(q as i128)
    } else {
        q as i128
    }
}

/// Rounds a ratio in millionths to the nearest whole number, halves upward.
pub open spec fn rounded_ratio(ratio_ppm: nat) -> nat {
    (ratio_ppm + 500_000) / 1_000_000
}

} // verus!
