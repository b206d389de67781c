use vstd::prelude::*;
use crate::fixed::{
    fx_ok, sat, spec_fx_mul, spec_fx_div, spec_isqrt, fx_add, fx_sub, fx_mul, fx_div, isqrt, FX_MAX,
};

verus! {

/// A 2-D vector of fixed-point coordinates.
#[derive(Clone, Copy, Debug, PartialEq, Eq, Structural)]
pub struct Vec2 {
    pub x: i64,
    pub y: i64,
}

pub open spec fn vec_ok(v: Vec2) -> bool {
    fx_ok(v.x) && fx_ok(v.y)
}

pub open spec fn zero_vec() -> Vec2 {
    Vec2 { x: 0, y: 0 }
}

pub open spec fn spec_add(a: Vec2, b: Vec2) -> Vec2 {
    Vec2 { x: sat(a.x + b.x) as i64, y: sat(a.y + b.y) as i64 }
}

pub open spec fn spec_sub(a: Vec2, b: Vec2) -> Vec2 {
    Vec2 { x: sat(a.x - b.x) as i64, y: sat(a.y - b.y) as i64 }
}

pub open spec fn spec_scale(a: Vec2, k: i64) -> Vec2 {
    Vec2 { x: spec_fx_mul(a.x as int, k as int) as i64, y: spec_fx_mul(a.y as int, k as int) as i64 }
}

pub open spec fn spec_dot(a: Vec2, b: Vec2) -> int {
    sat(spec_fx_mul(a.x as int, b.x as int) + spec_fx_mul(a.y as int, b.y as int))
}

/// Exact squared distance between two points, in raw steps squared.
pub open spec fn spec_dist_sq(a: Vec2, b: Vec2) -> int {
    (a.x - b.x) * (a.x - b.x) + (a.y - b.y) * (a.y - b.y)
}

/// The length of `v`: the integer square root of its squared norm, saturated.
pub open spec fn spec_length(v: Vec2) -> int {
    sat(spec_isqrt(v.x * v.x + v.y * v.y))
}

pub open spec fn spec_normalize(v: Vec2, len: int) -> Vec2 {
    if len == 0 {
        zero_vec()
    } else {
        Vec2 { x: spec_fx_div(v.x as int, len) as i64, y: spec_fx_div(v.y as int, len) as i64 }
    }
}

impl Vec2 {
    /// The vector `(x, y)` in raw fixed-point steps.
    pub fn new(x: i64, y: i64) -> (r: Vec2)
        ensures
            r == (Vec2 { x, y }),
    {
        Vec2 { x, y }
    }

    /// The zero vector.
    pub fn zero() -> (r: Vec2)
        ensures
            r == zero_vec(),
    {
        Vec2 { x: 0, y: 0 }
    }
}

/// Componentwise sum, saturated.
pub fn v_add(a: Vec2, b: Vec2) -> (r: Vec2)
    requires
        vec_ok(a),
        vec_ok(b),
    ensures
        r == spec_add(a, b),
        vec_ok(r),
{
    Vec2 { x: fx_add(a.x, b.x), y: fx_add(a.y, b.y) }
}

/// Componentwise difference, saturated.
pub fn v_sub(a: Vec2, b: Vec2) -> (r: Vec2)
    requires
        vec_ok(a),
        vec_ok(b),
    ensures
        r == spec_sub(a, b),
        vec_ok(r),
{
    Vec2 { x: fx_sub(a.x, b.x), y: fx_sub(a.y, b.y) }
}

/// `a` scaled by the fixed-point factor `k`.
pub fn v_scale(a: Vec2, k: i64) -> (r: Vec2)
    requires
        vec_ok(a),
        fx_ok(k),
    ensures
        r == spec_scale(a, k),
        vec_ok(r),
{
    Vec2 { x: fx_mul(a.x, k), y: fx_mul(a.y, k) }
}

/// Dot product, saturated.
pub fn v_dot(a: Vec2, b: Vec2) -> (r: i64)
    requires
        vec_ok(a),
        vec_ok(b),
    ensures
        r == spec_dot(a, b),
        fx_ok(r),
{
    fx_add(fx_mul(a.x, b.x), fx_mul(a.y, b.y))
}

/// Squared distance between two points, exact.
pub fn dist_sq(a: Vec2, b: Vec2) -> (r: i128)
    requires
        vec_ok(a),
        vec_ok(b),
    ensures
        r == spec_dist_sq(a, b),
        0 <= r <= 8 * FX_MAX * FX_MAX,
{
    let dx: i128 = a.x as i128 - b.x as i128;
    let dy: i128 = a.y as i128 - b.y as i128;
    assert(0 <= dx * dx <= 4 * FX_MAX * FX_MAX && 0 <= dy * dy <= 4 * FX_MAX * FX_MAX)
        by (nonlinear_arith)
        requires
            -2 * FX_MAX <= dx <= 2 * FX_MAX,
            -2 * FX_MAX <= dy <= 2 * FX_MAX,
    ;
    dx * dx + dy * dy
}

/// Euclidean length of `v`, rounded down and saturated.
pub fn v_length(v: Vec2) -> (r: i64)
    requires
        vec_ok(v),
    ensures
        r == spec_length(v),
        0 <= r <= FX_MAX,
{
    assert(0 <= v.x * v.x <= FX_MAX * FX_MAX && 0 <= v.y * v.y <= FX_MAX * FX_MAX)
        by (nonlinear_arith)
        requires
            vec_ok(v),
    ;
    let n: i128 = v.x as i128 * v.x as i128 + v.y as i128 * v.y as i128;
    let s = isqrt(n as u128);
    let r: i64 = if s > FX_MAX as u128 {
        FX_MAX
    } else {
        s as i64
    };
    r
}

/// `v` scaled to unit length; the zero vector where the length rounds to zero.
pub fn normalize_or_zero(v: Vec2) -> (r: Vec2)
    requires
        vec_ok(v),
    ensures
        r == spec_normalize(v, spec_length(v)),
        vec_ok(r),
{
    let len = v_length(v);
    if len == 0 {
        Vec2 { x: 0, y: 0 }
    } else {
        Vec2 { x: fx_div(v.x, len), y: fx_div(v.y, len) }
    }
}

} // verus!
