//! Affine interpolation between two points with integer coordinates.
use vstd::prelude::*;
use crate::hardware::Value;

verus! {

/// Division that rounds toward zero, for a positive divisor.
pub open spec fn trunc_div(n: int, d: int) -> int {
    if n >= 0 {
        n / d
    } else {
        -((-n) / d)
    }
}

/// The nearest `i32` to `x`.
pub open spec fn saturate_i32(x: int) -> int {
    if x > i32::MAX {
        i32::MAX as int
    } else if x < i32::MIN {
        i32::MIN as int
    } else {
        x
    }
}

/// The value at `v` of the line through `(xa, ya)` and `(xb, yb)`, rounded
/// toward zero and kept within the range of `i32`. It is computed exactly,
/// over the rationals: a computation in `f32` of the slope and offset can
/// fall just below an integer and give one less (through (19, 0) and
/// (58, 91) at 43, this gives 56).
pub open spec fn affine_at(xa: int, ya: int, xb: int, yb: int, v: int) -> int {
    saturate_i32(trunc_div(ya * (xb - xa) + (yb - ya) * (v - xa), xb - xa))
}

proof fn lemma_numerator_bounds(xa: int, ya: int, xb: int, yb: int, v: int)
    requires
        0 <= xa < xb <= 255,
        0 <= ya <= 255,
        0 <= yb <= 255,
        i32::MIN <= v <= i32::MAX,
    ensures
        -1_000_000_000_000 <= ya * (xb - xa) + (yb - ya) * (v - xa) <= 1_000_000_000_000,
        0 <= ya * (xb - xa) <= 65025,
        -800_000_000_000 <= (yb - ya) * (v - xa) <= 800_000_000_000,
{
    assert(0 <= ya * (xb - xa) <= 65025) by (nonlinear_arith)
        requires
            0 <= xa < xb <= 255,
            0 <= ya <= 255,
    ;
    assert(-800_000_000_000 <= (yb - ya) * (v - xa) <= 800_000_000_000) by (nonlinear_arith)
        requires
            -255 <= yb - ya <= 255,
            -3_000_000_000 <= v - xa <= 3_000_000_000,
    ;
}

/// The value at `v` of the line through `(xa, ya)` and `(xb, yb)`.
pub fn affine_value(xa: u8, ya: u8, xb: u8, yb: u8, v: Value) -> (r: Value)
    requires
        xa < xb,
    ensures
        r == affine_at(xa as int, ya as int, xb as int, yb as int, v as int),
{
    proof {
        lemma_numerator_bounds(xa as int, ya as int, xb as int, yb as int, v as int);
    }
    let d: i64 = xb as i64 - xa as i64;
    let left: i64 = (ya as i64) * d;
    let right: i64 = (yb as i64 - ya as i64) * (v as i64 - xa as i64);
    let n: i64 = left + right;
    let q: i64 = if n >= 0 {
        n / d
    } else {
        -((-n) / d)
    };
    if q > i32::MAX as i64 {
        i32::MAX
    } else if q < i32::MIN as i64 {
        i32::MIN
    } else {
        q as i32
    }
}

/// Between its two points, the line takes a value between their values:
/// at `v` from `xa` to `xb`, the value lies between `ya` and `yb`.
pub proof fn lemma_affine_between(xa: int, ya: int, xb: int, yb: int, v: int)
    requires
        0 <= xa <= v <= xb,
        xa < xb,
        0 <= ya <= 255,
        0 <= yb <= 255,
    ensures
        ya <= yb ==> ya <= affine_at(xa, ya, xb, yb, v) <= yb,
        yb <= ya ==> yb <= affine_at(xa, ya, xb, yb, v) <= ya,
{
    let d = xb - xa;
    let p = v - xa;
    let n = ya * (xb - xa) + (yb - ya) * (v - xa);
    let lo = if ya <= yb { ya } else { yb };
    let hi = if ya <= yb { yb } else { ya };
    assert(n == ya * (d - p) + yb * p) by (nonlinear_arith)
        requires
            n == ya * (xb - xa) + (yb - ya) * (v - xa),
            d == xb - xa,
            p == v - xa,
    ;
    assert(d * lo <= n <= d * hi) by (nonlinear_arith)
        requires
            n == ya * (d - p) + yb * p,
            0 <= p <= d,
            0 <= lo <= ya <= hi,
            lo <= yb <= hi,
    ;
    vstd::arithmetic::div_mod::lemma_div_is_ordered(d * lo, n, d);
    vstd::arithmetic::div_mod::lemma_div_is_ordered(n, d * hi, d);
    vstd::arithmetic::div_mod::lemma_div_multiples_vanish(lo, d);
    vstd::arithmetic::div_mod::lemma_div_multiples_vanish(hi, d);
    assert(n >= 0) by (nonlinear_arith)
        requires
            d * lo <= n,
            d > 0,
            lo >= 0,
    ;
    assert(trunc_div(n, d) == n / d);
}

/// Between its two points, a line that rises from the first to the second
/// never goes down: a higher value of `v` gives at least the same value.
pub proof fn lemma_affine_monotone(xa: int, ya: int, xb: int, yb: int, v1: int, v2: int)
    requires
        0 <= xa <= v1 <= v2 <= xb,
        xa < xb,
        0 <= ya <= yb <= 255,
    ensures
        affine_at(xa, ya, xb, yb, v1) <= affine_at(xa, ya, xb, yb, v2),
{
    lemma_affine_between(xa, ya, xb, yb, v1);
    lemma_affine_between(xa, ya, xb, yb, v2);
    let d = xb - xa;
    let n1 = ya * (xb - xa) + (yb - ya) * (v1 - xa);
    let n2 = ya * (xb - xa) + (yb - ya) * (v2 - xa);
    assert(0 <= n1 <= n2) by (nonlinear_arith)
        requires
            n1 == ya * (xb - xa) + (yb - ya) * (v1 - xa),
            n2 == ya * (xb - xa) + (yb - ya) * (v2 - xa),
            0 <= xa <= v1 <= v2,
            xa < xb,
            0 <= ya <= yb,
    ;
    vstd::arithmetic::div_mod::lemma_div_is_ordered(n1, n2, d);
    assert(trunc_div(n1, d) == n1 / d);
    assert(trunc_div(n2, d) == n2 / d);
}

} // verus!
