//! Decimal fixed-point scalars and the arithmetic the decoder and the
//! suppressor perform on them.
//!
//! A value `v: i64` stands for the real number `v / SCALE`. Multiplication of
//! two fixed-point values therefore divides the wide product by `SCALE`,
//! truncating toward zero, which is stated exactly by [`fp_mul_spec`].

use vstd::prelude::*;

verus! {

use vstd::arithmetic::div_mod::lemma_div_is_ordered;
use vstd::arithmetic::div_mod::lemma_div_pos_is_pos;

/// Number of fixed-point units in the real value one.
pub const SCALE: i64 = 1_000_000;

/// Fixed-point value of one half.
pub const HALF_UNIT: i64 = 500_000;

/// Default denominator epsilon for intersection-over-union (the real value
/// `1e-5`).
pub const DEFAULT_EPSILON: i64 = 10;

/// Coordinate offset separating classes in non-agnostic suppression (the real
/// value `7680`, larger than any plausible image dimension).
pub const MAX_WH: i64 = 7_680_000_000;

/// Largest magnitude accepted for a raw tensor entry (the real value ten;
/// model heads emit values in the unit interval).
pub const VAL_LIMIT: i64 = 10_000_000;

/// Largest magnitude accepted for an anchor extent (ten thousand pixels).
pub const ANCHOR_LIMIT: i64 = 10_000_000_000;

/// Largest magnitude accepted for a stride (one hundred).
pub const STRIDE_LIMIT: i64 = 100_000_000;

/// Largest grid extent accepted along either spatial axis of a raw tensor.
pub const GRID_LIMIT: usize = 100_000;

/// Largest class id a detection row may carry into suppression.
pub const CLASS_LIMIT: i64 = 100_000;

/// Largest coordinate magnitude a detection row may carry into suppression
/// or corner conversion (one billion pixels).
pub const COORD_LIMIT: i64 = 1_000_000_000_000_000;

/// Bound on a coordinate after the per-class offset has been added.
pub const SHIFT_LIMIT: i64 = 1_800_000_000_000_000;

/// Largest accepted denominator epsilon (the real value one million).
pub const EPSILON_LIMIT: i64 = 1_000_000_000_000;

/// Hard cap on decoded candidates per image.
pub const MAX_DECODE_BOXES: usize = 10_000;

/// Hard cap on candidates entering suppression; larger sets are trimmed.
pub const MAX_NMS_BOXES: usize = 30_000;

/// Suppression stops accepting once the output holds more than this many
/// boxes, so at most `MAX_OUTPUT_BOXES + 1` are returned.
pub const MAX_OUTPUT_BOXES: usize = 300;

/// Quotient of `p` by `SCALE`, truncated toward zero.
pub open spec fn div_scale(p: int) -> int {
    if p >= 0 {
        p / (SCALE as int)
    } else {
        -((-p) / (SCALE as int))
    }
}

/// Product of two fixed-point values: the wide product rescaled by `SCALE`,
/// truncated toward zero.
pub open spec fn fp_mul_spec(a: int, b: int) -> int {
    div_scale(a * b)
}

/// Half of a fixed-point value, truncated toward zero.
pub open spec fn half_spec(v: int) -> int {
    if v >= 0 {
        v / 2
    } else {
        -((-v) / 2)
    }
}

/// `div_scale` maps `[-m, m]` into `[-(m/SCALE), m/SCALE]`.
pub proof fn lemma_div_scale_bound(p: int, m: int)
    requires
        0 <= m,
        -m <= p <= m,
    ensures
        -(m / (SCALE as int)) <= div_scale(p) <= m / (SCALE as int),
{
    if p >= 0 {
        lemma_div_is_ordered(p, m, SCALE as int);
        lemma_div_pos_is_pos(p, SCALE as int);
    } else {
        lemma_div_is_ordered(-p, m, SCALE as int);
        lemma_div_pos_is_pos(-p, SCALE as int);
        lemma_div_pos_is_pos(m, SCALE as int);
    }
}

/// Bound propagation through a fixed-point multiplication.
pub proof fn lemma_fp_mul_bound(a: int, b: int, am: int, bm: int)
    requires
        0 <= am,
        0 <= bm,
        -am <= a <= am,
        -bm <= b <= bm,
    ensures
        -((am * bm) / (SCALE as int)) <= fp_mul_spec(a, b) <= (am * bm) / (SCALE as int),
{
    assert(-(am * bm) <= a * b <= am * bm) by (nonlinear_arith)
        requires
            0 <= am,
            0 <= bm,
            -am <= a <= am,
            -bm <= b <= bm,
    ;
    assert(0 <= am * bm) by (nonlinear_arith)
        requires
            0 <= am,
            0 <= bm,
    ;
    lemma_div_scale_bound(a * b, am * bm);
}

/// Bound propagation through `half_spec`.
pub proof fn lemma_half_bound(v: int, m: int)
    requires
        0 <= m,
        -m <= v <= m,
    ensures
        -(m / 2) <= half_spec(v) <= m / 2,
{
    if v >= 0 {
        lemma_div_is_ordered(v, m, 2);
        lemma_div_pos_is_pos(v, 2);
    } else {
        lemma_div_is_ordered(-v, m, 2);
        lemma_div_pos_is_pos(-v, 2);
        lemma_div_pos_is_pos(m, 2);
    }
}

/// Widening product of two `i64` values, exact in `i128`.
pub fn wide_mul(a: i64, b: i64) -> (r: i128)
    ensures
        r as int == (a as int) * (b as int),
        -0x4000_0000_0000_0000_0000_0000_0000_0000 <= r as int
            <= 0x4000_0000_0000_0000_0000_0000_0000_0000,
{
    proof {
        assert(-0x4000_0000_0000_0000_0000_0000_0000_0000 <= (a as int) * (b as int)
            <= 0x4000_0000_0000_0000_0000_0000_0000_0000) by (nonlinear_arith)
            requires
                -0x8000_0000_0000_0000 <= a as int <= 0x7FFF_FFFF_FFFF_FFFF,
                -0x8000_0000_0000_0000 <= b as int <= 0x7FFF_FFFF_FFFF_FFFF,
        ;
    }
    (a as i128) * (b as i128)
}

/// Fixed-point multiplication: `a * b` rescaled by `SCALE`, truncated toward
/// zero.
pub fn fp_mul(a: i64, b: i64) -> (r: i64)
    requires
        -0x7FFF_FFFF_FFFF_FFFF <= fp_mul_spec(a as int, b as int) <= 0x7FFF_FFFF_FFFF_FFFF,
    ensures
        r as int == fp_mul_spec(a as int, b as int),
{
    let p: i128 = wide_mul(a, b);
    if p >= 0 {
        let q: u128 = (p as u128) / (SCALE as u128);
        proof {
            assert(q == (p as int) / (SCALE as int));
            assert(q <= 0x7FFF_FFFF_FFFF_FFFF);
        }
        q as i64
    } else {
        let m: u128 = (-p) as u128;
        let q: u128 = m / (SCALE as u128);
        proof {
            assert(m == -(p as int));
            assert(q == (-(p as int)) / (SCALE as int));
            assert(q <= 0x7FFF_FFFF_FFFF_FFFF);
        }
        -(q as i64)
    }
}

/// Half of a fixed-point value, truncated toward zero.
pub fn half(v: i64) -> (r: i64)
    requires
        -0x7FFF_FFFF_FFFF_FFFF <= v,
    ensures
        r as int == half_spec(v as int),
{
    if v >= 0 {
        ((v as u64) / 2) as i64
    } else {
        let m: u64 = (-v) as u64;
        -((m / 2) as i64)
    }
}

} // verus!
