use vstd::prelude::*;

verus! {

/// Fixed-point scale: one unit of length, time, mass or force is `SCALE` raw steps.
pub const SCALE: i64 = 1_000_000;

/// Largest magnitude a fixed-point value may hold; operations saturate there.
pub const FX_MAX: i64 = 1_000_000_000_000_000;

/// A raw fixed-point value within the representable range.
pub open spec fn fx_ok(v: i64) -> bool {
    -FX_MAX <= v <= FX_MAX
}

/// Clamps an exact result into the representable range.
pub open spec fn sat(v: int) -> int {
    if v > FX_MAX {
        FX_MAX as int
    } else if v < -FX_MAX {
        -FX_MAX
    } else {
        v
    }
}

/// Integer division rounding toward zero, for a positive divisor.
pub open spec fn trunc_div(a: int, b: int) -> int
    recommends
        b > 0,
{
    if a >= 0 {
        a / b
    } else {
        -((-a) / b)
    }
}

pub open spec fn spec_fx_mul(a: int, b: int) -> int {
    sat(trunc_div(a * b, SCALE as int))
}

pub open spec fn spec_fx_div(a: int, b: int) -> int {
    sat(trunc_div(a * SCALE, b))
}

/// The integer square root: the largest `r` with `r * r <= n`.
pub open spec fn is_isqrt(n: int, r: int) -> bool {
    0 <= r && r * r <= n < (r + 1) * (r + 1)
}

/// The integer square root, chosen by its defining property.
pub open spec fn spec_isqrt(n: int) -> int {
    choose|r: int| is_isqrt(n, r)
}

/// At most one value is the integer square root of `n`.
pub proof fn lemma_isqrt_unique(n: int, a: int, b: int)
    requires
        is_isqrt(n, a),
        is_isqrt(n, b),
    ensures
        a == b,
{
    if a < b {
        assert((a + 1) * (a + 1) <= b * b) by (nonlinear_arith)
            requires
                0 <= a,
                a + 1 <= b,
        ;
    } else if b < a {
        assert((b + 1) * (b + 1) <= a * a) by (nonlinear_arith)
            requires
                0 <= b,
                b + 1 <= a,
        ;
    }
}

/// A value with the defining property is the integer square root.
pub proof fn lemma_isqrt_is(n: int, r: int)
    requires
        is_isqrt(n, r),
    ensures
        spec_isqrt(n) == r,
{
    lemma_isqrt_unique(n, r, spec_isqrt(n));
}

pub fn div_toward_zero(a: i128, b: i128) -> (r: i128)
    requires
        b > 0,
        -0x1000_0000_0000_0000_0000_0000_0000 <= a <= 0x1000_0000_0000_0000_0000_0000_0000,
    ensures
        r == trunc_div(a as int, b as int),
{
    if a >= 0 {
        a / b
    } else {
        -((-a) / b)
    }
}

pub fn saturate(v: i128) -> (r: i64)
    ensures
        r == sat(v as int),
        fx_ok(r),
{
    if v > FX_MAX as i128 {
        FX_MAX
    } else if v < -(FX_MAX as i128) {
        -FX_MAX
    } else {
        v as i64
    }
}

/// Sum of two fixed-point values, saturated.
pub fn fx_add(a: i64, b: i64) -> (r: i64)
    requires
        fx_ok(a),
        fx_ok(b),
    ensures
        r == sat(a + b),
        fx_ok(r),
{
    saturate(a as i128 + b as i128)
}

/// Difference of two fixed-point values, saturated.
pub fn fx_sub(a: i64, b: i64) -> (r: i64)
    requires
        fx_ok(a),
        fx_ok(b),
    ensures
        r == sat(a - b),
        fx_ok(r),
{
    saturate(a as i128 - b as i128)
}

/// Product of two fixed-point values, rounded toward zero and saturated.
pub fn fx_mul(a: i64, b: i64) -> (r: i64)
    requires
        fx_ok(a),
        fx_ok(b),
    ensures
        r == spec_fx_mul(a as int, b as int),
        fx_ok(r),
{
    proof {
        assert(-FX_MAX * FX_MAX <= a * b <= FX_MAX * FX_MAX) by (nonlinear_arith)
            requires
                fx_ok(a),
                fx_ok(b),
        ;
    }
    let p: i128 = a as i128 * b as i128;
    saturate(div_toward_zero(p, SCALE as i128))
}

/// Quotient of two fixed-point values, rounded toward zero and saturated.
pub fn fx_div(a: i64, b: i64) -> (r: i64)
    requires
        fx_ok(a),
        b > 0,
        b <= FX_MAX,
    ensures
        r == spec_fx_div(a as int, b as int),
        fx_ok(r),
{
    let p: i128 = a as i128 * SCALE as i128;
    saturate(div_toward_zero(p, b as i128))
}

/// Bound on the arguments of `isqrt`.
pub const ISQRT_MAX: u128 = 0x100_0000_0000_0000_0000_0000_0000;

/// The integer square root of `n`, by bisection.
pub fn isqrt(n: u128) -> (r: u128)
    requires
        n <= ISQRT_MAX,
    ensures
        is_isqrt(n as int, r as int),
        r == spec_isqrt(n as int),
{
    let mut lo: u128 = 0;
    let mut hi: u128 = 0x20_0000_0000_0000;
    assert(hi * hi > ISQRT_MAX) by (nonlinear_arith)
        requires
            hi == 0x20_0000_0000_0000u128,
    ;
    while lo + 1 < hi
        invariant
            lo < hi <= 0x20_0000_0000_0000,
            lo * lo <= n,
            n < hi * hi,
        decreases hi - lo,
    {
        let mid: u128 = lo + (hi - lo) / 2;
        assert(mid * mid <= 0x20_0000_0000_0000u128 * 0x20_0000_0000_0000u128) by (nonlinear_arith)
            requires
                mid < 0x20_0000_0000_0000u128,
        ;
        if mid * mid <= n {
            lo = mid;
        } else {
            hi = mid;
        }
    }
    assert(hi == lo + 1);
    proof {
        lemma_isqrt_is(n as int, lo as int);
    }
    lo
}

} // verus!
