//! Quaternion rotations in fixed-point arithmetic: Hamilton product,
//! conjugation, rotating a vector by the inverse of a rotation, building a
//! rotation from an axis and an angle (small-angle polynomial sine/cosine),
//! and renormalization via an integer square root.
//!
//! Every operation saturates its components at `LIMIT` (magnitude 2.0); for
//! the near-unit quaternions a gizmo holds, the saturation never binds and
//! the formulas are the exact truncated fixed-point counterparts of the real
//! ones.

use vstd::prelude::*;
use crate::fixed::{
    SCALE, LIMIT, sdiv, sat, div_trunc, saturate, isqrt_spec, isqrt, lemma_isqrt_bounds,
    lemma_mul_bound, lemma_sdiv_exact, lemma_sdiv_mag, lemma_sdiv_rem,
};

verus! {

broadcast use
    vstd::arithmetic::mul::group_mul_is_commutative_and_distributive,
    vstd::arithmetic::mul::group_mul_basics;

/// Rotation angle per pixel of mouse drag: 0.01 radians in raw form.
pub const ROT_SPEED: i64 = 10_000;

/// Largest half-angle the polynomial sine/cosine accept: 20 radians raw.
pub const HALF_ANGLE_LIMIT: i64 = 20_000_000;

/// Largest full rotation angle accepted: 40 radians in raw form.
pub const ANGLE_LIMIT: i64 = 40_000_000;

/// A rotation, stored as quaternion components `w + x*i + y*j + z*k` in
/// fixed-point raw form.
#[derive(Clone, Copy, PartialEq, Eq, Structural, Debug)]
pub struct Quat {
    pub x: i64,
    pub y: i64,
    pub z: i64,
    pub w: i64,
}

/// A 3D vector in fixed-point raw form.
#[derive(Clone, Copy, PartialEq, Eq, Structural, Debug)]
pub struct Vec3 {
    pub x: i64,
    pub y: i64,
    pub z: i64,
}

/// All components within the working range `[-LIMIT, LIMIT]`.
pub open spec fn bounded(q: Quat) -> bool {
    &&& -(LIMIT as int) <= q.x <= LIMIT
    &&& -(LIMIT as int) <= q.y <= LIMIT
    &&& -(LIMIT as int) <= q.z <= LIMIT
    &&& -(LIMIT as int) <= q.w <= LIMIT
}

/// All components within the working range `[-LIMIT, LIMIT]`.
pub open spec fn bounded_vec(v: Vec3) -> bool {
    &&& -(LIMIT as int) <= v.x <= LIMIT
    &&& -(LIMIT as int) <= v.y <= LIMIT
    &&& -(LIMIT as int) <= v.z <= LIMIT
}

/// The identity rotation.
pub open spec fn identity_spec() -> Quat {
    Quat { x: 0, y: 0, z: 0, w: SCALE }
}

/// The world X unit vector.
pub open spec fn unit_x_spec() -> Vec3 {
    Vec3 { x: SCALE, y: 0, z: 0 }
}

/// The world Y unit vector.
pub open spec fn unit_y_spec() -> Vec3 {
    Vec3 { x: 0, y: SCALE, z: 0 }
}

/// Hamilton product of two quaternions, each component scaled back down by
/// `SCALE` (truncating) and saturated.
pub open spec fn mul_spec(a: Quat, b: Quat) -> Quat {
    Quat {
        x: sat(sdiv(a.w * b.x + a.x * b.w + a.y * b.z - a.z * b.y, SCALE as int)) as i64,
        y: sat(sdiv(a.w * b.y + a.y * b.w + a.z * b.x - a.x * b.z, SCALE as int)) as i64,
        z: sat(sdiv(a.w * b.z + a.z * b.w + a.x * b.y - a.y * b.x, SCALE as int)) as i64,
        w: sat(sdiv(a.w * b.w - a.x * b.x - a.y * b.y - a.z * b.z, SCALE as int)) as i64,
    }
}

/// Conjugate: the inverse of a unit quaternion.
pub open spec fn conj_spec(q: Quat) -> Quat {
    Quat { x: (-(q.x as int)) as i64, y: (-(q.y as int)) as i64, z: (-(q.z as int)) as i64, w: q.w }
}

/// A vector viewed as a pure quaternion.
pub open spec fn vec_quat_spec(v: Vec3) -> Quat {
    Quat { x: v.x, y: v.y, z: v.z, w: 0 }
}

/// The vector `v` rotated by the inverse of `q`: the sandwich
/// `conj(q) * v * q`.
pub open spec fn rotate_inverse_spec(q: Quat, v: Vec3) -> Vec3 {
    let p = mul_spec(mul_spec(conj_spec(q), vec_quat_spec(v)), q);
    Vec3 { x: p.x, y: p.y, z: p.z }
}

/// Saturation into `[-SCALE, SCALE]`, the range of a sine or cosine.
pub open spec fn sat_one(a: int) -> int {
    if a > SCALE {
        SCALE as int
    } else if a < -(SCALE as int) {
        -(SCALE as int)
    } else {
        a
    }
}

/// Saturation of a half-angle into `[-HALF_ANGLE_LIMIT, HALF_ANGLE_LIMIT]`.
pub open spec fn sat_half(a: int) -> int {
    if a > HALF_ANGLE_LIMIT {
        HALF_ANGLE_LIMIT as int
    } else if a < -(HALF_ANGLE_LIMIT as int) {
        -(HALF_ANGLE_LIMIT as int)
    } else {
        a
    }
}

/// Saturation of a full angle into `[-ANGLE_LIMIT, ANGLE_LIMIT]`.
pub open spec fn sat_angle(a: int) -> int {
    if a > ANGLE_LIMIT {
        ANGLE_LIMIT as int
    } else if a < -(ANGLE_LIMIT as int) {
        -(ANGLE_LIMIT as int)
    } else {
        a
    }
}

/// Small-angle sine: the truncated series `a - a^3 / 6`, saturated into
/// `[-SCALE, SCALE]`; the input is saturated into the accepted angle range.
pub open spec fn sin_spec(a: int) -> int {
    let t = sat_half(a);
    let u = sdiv(t * t, SCALE as int);
    sat_one(t - sdiv(u * t, 6 * (SCALE as int)))
}

/// Small-angle cosine: the truncated series `1 - a^2 / 2`, saturated into
/// `[-SCALE, SCALE]`; the input is saturated into the accepted angle range.
pub open spec fn cos_spec(a: int) -> int {
    let t = sat_half(a);
    sat_one((SCALE as int) - sdiv(t * t, 2 * (SCALE as int)))
}

/// The rotation of `angle` (raw radians) about `axis`: components
/// `(axis * sin(angle / 2), cos(angle / 2))`.
pub open spec fn from_axis_angle_spec(axis: Vec3, angle: int) -> Quat {
    let half = sdiv(sat_angle(angle), 2);
    let s = sin_spec(half);
    let c = cos_spec(half);
    Quat {
        x: sat(sdiv(axis.x * s, SCALE as int)) as i64,
        y: sat(sdiv(axis.y * s, SCALE as int)) as i64,
        z: sat(sdiv(axis.z * s, SCALE as int)) as i64,
        w: c as i64,
    }
}

/// Squared norm in raw units: at `SCALE * SCALE` for a unit quaternion.
pub open spec fn norm2_spec(q: Quat) -> int {
    q.x * q.x + q.y * q.y + q.z * q.z + q.w * q.w
}

/// Nearest unit-norm equivalent: each component divided by the floor square
/// root of the squared norm. The zero quaternion, which has no direction,
/// is left unchanged.
pub open spec fn normalize_spec(q: Quat) -> Quat {
    if norm2_spec(q) == 0 {
        q
    } else {
        let n = isqrt_spec(norm2_spec(q) as nat) as int;
        Quat {
            x: sat(sdiv(q.x * (SCALE as int), n)) as i64,
            y: sat(sdiv(q.y * (SCALE as int), n)) as i64,
            z: sat(sdiv(q.z * (SCALE as int), n)) as i64,
            w: sat(sdiv(q.w * (SCALE as int), n)) as i64,
        }
    }
}

/// One drag sample applied to one orientation: an incremental rotation of
/// `dy * ROT_SPEED` about the orientation's own X axis composed with
/// `dx * ROT_SPEED` about its own Y axis, post-multiplied onto it.
pub open spec fn apply_drag_spec(q: Quat, dx: i32, dy: i32) -> Quat {
    let ax = rotate_inverse_spec(q, unit_x_spec());
    let ay = rotate_inverse_spec(q, unit_y_spec());
    let inc_x = from_axis_angle_spec(ax, (dy as int) * (ROT_SPEED as int));
    let inc_y = from_axis_angle_spec(ay, (dx as int) * (ROT_SPEED as int));
    mul_spec(q, mul_spec(inc_x, inc_y))
}

/// One Hamilton-product component of the shape `(p + q + r - s) / SCALE`,
/// saturated.
fn comp_ppm(a1: i64, b1: i64, a2: i64, b2: i64, a3: i64, b3: i64, a4: i64, b4: i64) -> (c: i64)
    requires
        -LIMIT <= a1 <= LIMIT,
        -LIMIT <= b1 <= LIMIT,
        -LIMIT <= a2 <= LIMIT,
        -LIMIT <= b2 <= LIMIT,
        -LIMIT <= a3 <= LIMIT,
        -LIMIT <= b3 <= LIMIT,
        -LIMIT <= a4 <= LIMIT,
        -LIMIT <= b4 <= LIMIT,
    ensures
        c == sat(sdiv(a1 * b1 + a2 * b2 + a3 * b3 - a4 * b4, SCALE as int)),
        -LIMIT <= c <= LIMIT,
{
    proof {
        lemma_mul_bound(a1 as int, b1 as int, LIMIT as int, LIMIT as int);
        lemma_mul_bound(a2 as int, b2 as int, LIMIT as int, LIMIT as int);
        lemma_mul_bound(a3 as int, b3 as int, LIMIT as int, LIMIT as int);
        lemma_mul_bound(a4 as int, b4 as int, LIMIT as int, LIMIT as int);
    }
    saturate(div_trunc(a1 * b1 + a2 * b2 + a3 * b3 - a4 * b4, SCALE))
}

/// One Hamilton-product component of the shape `(p - q - r - s) / SCALE`,
/// saturated.
fn comp_mmm(a1: i64, b1: i64, a2: i64, b2: i64, a3: i64, b3: i64, a4: i64, b4: i64) -> (c: i64)
    requires
        -LIMIT <= a1 <= LIMIT,
        -LIMIT <= b1 <= LIMIT,
        -LIMIT <= a2 <= LIMIT,
        -LIMIT <= b2 <= LIMIT,
        -LIMIT <= a3 <= LIMIT,
        -LIMIT <= b3 <= LIMIT,
        -LIMIT <= a4 <= LIMIT,
        -LIMIT <= b4 <= LIMIT,
    ensures
        c == sat(sdiv(a1 * b1 - a2 * b2 - a3 * b3 - a4 * b4, SCALE as int)),
        -LIMIT <= c <= LIMIT,
{
    proof {
        lemma_mul_bound(a1 as int, b1 as int, LIMIT as int, LIMIT as int);
        lemma_mul_bound(a2 as int, b2 as int, LIMIT as int, LIMIT as int);
        lemma_mul_bound(a3 as int, b3 as int, LIMIT as int, LIMIT as int);
        lemma_mul_bound(a4 as int, b4 as int, LIMIT as int, LIMIT as int);
    }
    saturate(div_trunc(a1 * b1 - a2 * b2 - a3 * b3 - a4 * b4, SCALE))
}

/// Hamilton product.
pub fn quat_mul(a: &Quat, b: &Quat) -> (r: Quat)
    requires
        bounded(*a),
        bounded(*b),
    ensures
        r == mul_spec(*a, *b),
        bounded(r),
{
    Quat {
        x: comp_ppm(a.w, b.x, a.x, b.w, a.y, b.z, a.z, b.y),
        y: comp_ppm(a.w, b.y, a.y, b.w, a.z, b.x, a.x, b.z),
        z: comp_ppm(a.w, b.z, a.z, b.w, a.x, b.y, a.y, b.x),
        w: comp_mmm(a.w, b.w, a.x, b.x, a.y, b.y, a.z, b.z),
    }
}

/// Conjugate: the inverse of a unit quaternion.
pub fn conjugate(q: &Quat) -> (r: Quat)
    requires
        bounded(*q),
    ensures
        r == conj_spec(*q),
        bounded(r),
{
    Quat { x: -q.x, y: -q.y, z: -q.z, w: q.w }
}

/// The vector `v` rotated by the inverse of `q`.
pub fn rotate_inverse(q: &Quat, v: &Vec3) -> (r: Vec3)
    requires
        bounded(*q),
        bounded_vec(*v),
    ensures
        r == rotate_inverse_spec(*q, *v),
        bounded_vec(r),
{
    let c = conjugate(q);
    let vq = Quat { x: v.x, y: v.y, z: v.z, w: 0 };
    let p = quat_mul(&quat_mul(&c, &vq), q);
    Vec3 { x: p.x, y: p.y, z: p.z }
}

/// Small-angle sine, `a - a^3 / 6` saturated.
pub fn sin_fx(a: i64) -> (r: i64)
    ensures
        r == sin_spec(a as int),
        -SCALE <= r <= SCALE,
{
    let t: i64 = if a > HALF_ANGLE_LIMIT {
        HALF_ANGLE_LIMIT
    } else if a < -HALF_ANGLE_LIMIT {
        -HALF_ANGLE_LIMIT
    } else {
        a
    };
    proof {
        lemma_mul_bound(t as int, t as int, HALF_ANGLE_LIMIT as int, HALF_ANGLE_LIMIT as int);
    }
    let u: i64 = div_trunc(t * t, SCALE);
    proof {
        lemma_sdiv_mag((t * t) as int, SCALE as int, 400_000_000int);
        lemma_mul_bound(u as int, t as int, 400_000_000int, HALF_ANGLE_LIMIT as int);
    }
    let cube: i64 = div_trunc(u * t, 6 * SCALE);
    proof {
        lemma_sdiv_mag((u * t) as int, 6 * (SCALE as int), 1_333_333_334int);
    }
    let r0: i64 = t - cube;
    if r0 > SCALE {
        SCALE
    } else if r0 < -SCALE {
        -SCALE
    } else {
        r0
    }
}

/// Small-angle cosine, `1 - a^2 / 2` saturated.
pub fn cos_fx(a: i64) -> (r: i64)
    ensures
        r == cos_spec(a as int),
        -SCALE <= r <= SCALE,
{
    let t: i64 = if a > HALF_ANGLE_LIMIT {
        HALF_ANGLE_LIMIT
    } else if a < -HALF_ANGLE_LIMIT {
        -HALF_ANGLE_LIMIT
    } else {
        a
    };
    proof {
        lemma_mul_bound(t as int, t as int, HALF_ANGLE_LIMIT as int, HALF_ANGLE_LIMIT as int);
    }
    let sq: i64 = div_trunc(t * t, 2 * SCALE);
    proof {
        lemma_sdiv_mag((t * t) as int, 2 * (SCALE as int), 200_000_000int);
    }
    let r0: i64 = SCALE - sq;
    if r0 > SCALE {
        SCALE
    } else if r0 < -SCALE {
        -SCALE
    } else {
        r0
    }
}

/// The rotation of `angle` (raw radians) about `axis`.
pub fn from_axis_angle(axis: &Vec3, angle: i64) -> (r: Quat)
    requires
        bounded_vec(*axis),
    ensures
        r == from_axis_angle_spec(*axis, angle as int),
        bounded(r),
{
    let a: i64 = if angle > ANGLE_LIMIT {
        ANGLE_LIMIT
    } else if angle < -ANGLE_LIMIT {
        -ANGLE_LIMIT
    } else {
        angle
    };
    let half: i64 = div_trunc(a, 2);
    proof {
        lemma_sdiv_mag(a as int, 2, ANGLE_LIMIT as int);
    }
    let s: i64 = sin_fx(half);
    let c: i64 = cos_fx(half);
    proof {
        lemma_mul_bound(axis.x as int, s as int, LIMIT as int, SCALE as int);
        lemma_mul_bound(axis.y as int, s as int, LIMIT as int, SCALE as int);
        lemma_mul_bound(axis.z as int, s as int, LIMIT as int, SCALE as int);
    }
    Quat {
        x: saturate(div_trunc(axis.x * s, SCALE)),
        y: saturate(div_trunc(axis.y * s, SCALE)),
        z: saturate(div_trunc(axis.z * s, SCALE)),
        w: c,
    }
}

/// Squared norm in raw units.
pub fn norm2(q: &Quat) -> (n: i64)
    requires
        bounded(*q),
    ensures
        n == norm2_spec(*q),
        0 <= n <= 16_000_000_000_000,
{
    proof {
        lemma_mul_bound(q.x as int, q.x as int, LIMIT as int, LIMIT as int);
        lemma_mul_bound(q.y as int, q.y as int, LIMIT as int, LIMIT as int);
        lemma_mul_bound(q.z as int, q.z as int, LIMIT as int, LIMIT as int);
        lemma_mul_bound(q.w as int, q.w as int, LIMIT as int, LIMIT as int);
        assert(q.x * q.x >= 0) by (nonlinear_arith);
        assert(q.y * q.y >= 0) by (nonlinear_arith);
        assert(q.z * q.z >= 0) by (nonlinear_arith);
        assert(q.w * q.w >= 0) by (nonlinear_arith);
    }
    q.x * q.x + q.y * q.y + q.z * q.z + q.w * q.w
}

/// The nearest unit-norm equivalent of `q`; the zero quaternion is left
/// unchanged.
pub fn normalize(q: &Quat) -> (r: Quat)
    requires
        bounded(*q),
    ensures
        r == normalize_spec(*q),
        bounded(r),
{
    let n2: i64 = norm2(q);
    if n2 == 0 {
        *q
    } else {
        let n: u64 = isqrt(n2 as u64);
        proof {
            lemma_isqrt_bounds(n2 as nat);
            assert(n >= 1) by {
                if n == 0 {
                    assert(n2 < 1);
                }
            }
            assert((n as int) * (n as int) <= 16_000_000_000_000);
            assert(n <= 4_000_000) by {
                if n > 4_000_000 {
                    assert((n as int) * (n as int) > 16_000_000_000_000) by (nonlinear_arith)
                        requires
                            (n as int) > 4_000_000,
                    {
                    }
                }
            }
            lemma_mul_bound(q.x as int, SCALE as int, LIMIT as int, SCALE as int);
            lemma_mul_bound(q.y as int, SCALE as int, LIMIT as int, SCALE as int);
            lemma_mul_bound(q.z as int, SCALE as int, LIMIT as int, SCALE as int);
            lemma_mul_bound(q.w as int, SCALE as int, LIMIT as int, SCALE as int);
        }
        let ni: i64 = n as i64;
        Quat {
            x: saturate(div_trunc(q.x * SCALE, ni)),
            y: saturate(div_trunc(q.y * SCALE, ni)),
            z: saturate(div_trunc(q.z * SCALE, ni)),
            w: saturate(div_trunc(q.w * SCALE, ni)),
        }
    }
}

/// The identity rotation.
pub fn identity() -> (r: Quat)
    ensures
        r == identity_spec(),
        bounded(r),
{
    Quat { x: 0, y: 0, z: 0, w: SCALE }
}

/// One drag sample applied to one orientation, exactly as
/// `apply_drag_spec` states it.
pub fn apply_drag(q: &Quat, dx: i32, dy: i32) -> (r: Quat)
    requires
        bounded(*q),
    ensures
        r == apply_drag_spec(*q, dx, dy),
        bounded(r),
{
    let ux = Vec3 { x: SCALE, y: 0, z: 0 };
    let uy = Vec3 { x: 0, y: SCALE, z: 0 };
    let ax = rotate_inverse(q, &ux);
    let ay = rotate_inverse(q, &uy);
    proof {
        lemma_mul_bound(dx as int, ROT_SPEED as int, 2_147_483_648int, ROT_SPEED as int);
        lemma_mul_bound(dy as int, ROT_SPEED as int, 2_147_483_648int, ROT_SPEED as int);
    }
    let rot_x: i64 = (dx as i64) * ROT_SPEED;
    let rot_y: i64 = (dy as i64) * ROT_SPEED;
    let inc_x = from_axis_angle(&ax, rot_y);
    let inc_y = from_axis_angle(&ay, rot_x);
    let inc = quat_mul(&inc_x, &inc_y);
    quat_mul(q, &inc)
}

/// A sine or cosine lies within `[-SCALE, SCALE]`.
pub proof fn lemma_sin_cos_range(a: int)
    ensures
        -(SCALE as int) <= sin_spec(a) <= SCALE,
        -(SCALE as int) <= cos_spec(a) <= SCALE,
{
}

/// Normalization keeps every component within the working range.
pub proof fn lemma_normalize_spec_bounded(q: Quat)
    requires
        bounded(q),
    ensures
        bounded(normalize_spec(q)),
{
}

/// The identity rotation is a left unit of the Hamilton product.
pub proof fn lemma_mul_identity_left(b: Quat)
    requires
        bounded(b),
    ensures
        mul_spec(identity_spec(), b) == b,
{
    lemma_sdiv_exact(b.x as int, SCALE as int);
    lemma_sdiv_exact(b.y as int, SCALE as int);
    lemma_sdiv_exact(b.z as int, SCALE as int);
    lemma_sdiv_exact(b.w as int, SCALE as int);
}

/// The identity rotation is a right unit of the Hamilton product.
pub proof fn lemma_mul_identity_right(a: Quat)
    requires
        bounded(a),
    ensures
        mul_spec(a, identity_spec()) == a,
{
    lemma_sdiv_exact(a.x as int, SCALE as int);
    lemma_sdiv_exact(a.y as int, SCALE as int);
    lemma_sdiv_exact(a.z as int, SCALE as int);
    lemma_sdiv_exact(a.w as int, SCALE as int);
}

/// At the identity orientation the object's own axes coincide with the
/// world axes: rotating a vector by the identity's inverse returns it.
pub proof fn lemma_rotate_inverse_identity(v: Vec3)
    requires
        bounded_vec(v),
    ensures
        rotate_inverse_spec(identity_spec(), v) == v,
{
    assert(conj_spec(identity_spec()) == identity_spec());
    lemma_mul_identity_left(vec_quat_spec(v));
    lemma_mul_identity_right(vec_quat_spec(v));
}

/// A rotation by angle zero about any axis is the identity rotation.
pub proof fn lemma_from_axis_angle_zero(axis: Vec3)
    requires
        bounded_vec(axis),
    ensures
        from_axis_angle_spec(axis, 0) == identity_spec(),
{
    assert(sat_angle(0) == 0);
    assert(sdiv(0, 2) == 0);
    assert(sin_spec(0) == 0);
    assert(cos_spec(0) == SCALE);
    assert(sat(sdiv(axis.x * 0, SCALE as int)) == 0);
    assert(sat(sdiv(axis.y * 0, SCALE as int)) == 0);
    assert(sat(sdiv(axis.z * 0, SCALE as int)) == 0);
}

/// Normalization leaves a quaternion unchanged when its norm already
/// measures exactly one on the fixed-point grid: the division by the norm
/// is then a division by `SCALE`, which every component carries exactly.
pub proof fn lemma_normalize_fixed_point(q: Quat)
    requires
        bounded(q),
        isqrt_spec(norm2_spec(q) as nat) == SCALE,
    ensures
        normalize_spec(q) == q,
{
    assert(q.x * q.x >= 0) by (nonlinear_arith);
    assert(q.y * q.y >= 0) by (nonlinear_arith);
    assert(q.z * q.z >= 0) by (nonlinear_arith);
    assert(q.w * q.w >= 0) by (nonlinear_arith);
    let n2 = norm2_spec(q) as nat;
    lemma_isqrt_bounds(n2);
    assert(n2 >= (SCALE as nat) * (SCALE as nat));
    assert(norm2_spec(q) != 0);
    assert(n2 < (SCALE as nat + 1) * (SCALE as nat + 1));
    assert(q.x * q.x <= norm2_spec(q)) by (nonlinear_arith)
        requires
            q.y * q.y >= 0 && q.z * q.z >= 0 && q.w * q.w >= 0,
            norm2_spec(q) == q.x * q.x + q.y * q.y + q.z * q.z + q.w * q.w,
    {
    }
    assert(q.y * q.y <= norm2_spec(q)) by (nonlinear_arith)
        requires
            q.x * q.x >= 0 && q.z * q.z >= 0 && q.w * q.w >= 0,
            norm2_spec(q) == q.x * q.x + q.y * q.y + q.z * q.z + q.w * q.w,
    {
    }
    assert(q.z * q.z <= norm2_spec(q)) by (nonlinear_arith)
        requires
            q.x * q.x >= 0 && q.y * q.y >= 0 && q.w * q.w >= 0,
            norm2_spec(q) == q.x * q.x + q.y * q.y + q.z * q.z + q.w * q.w,
    {
    }
    assert(q.w * q.w <= norm2_spec(q)) by (nonlinear_arith)
        requires
            q.x * q.x >= 0 && q.y * q.y >= 0 && q.z * q.z >= 0,
            norm2_spec(q) == q.x * q.x + q.y * q.y + q.z * q.z + q.w * q.w,
    {
    }
    assert(-(SCALE as int) <= q.x <= SCALE) by (nonlinear_arith)
        requires
            (q.x as int) * (q.x as int) < (1_000_001int) * (1_000_001int),
    {
    }
    assert(-(SCALE as int) <= q.y <= SCALE) by (nonlinear_arith)
        requires
            (q.y as int) * (q.y as int) < (1_000_001int) * (1_000_001int),
    {
    }
    assert(-(SCALE as int) <= q.z <= SCALE) by (nonlinear_arith)
        requires
            (q.z as int) * (q.z as int) < (1_000_001int) * (1_000_001int),
    {
    }
    assert(-(SCALE as int) <= q.w <= SCALE) by (nonlinear_arith)
        requires
            (q.w as int) * (q.w as int) < (1_000_001int) * (1_000_001int),
    {
    }
    lemma_sdiv_exact(q.x as int, SCALE as int);
    lemma_sdiv_exact(q.y as int, SCALE as int);
    lemma_sdiv_exact(q.z as int, SCALE as int);
    lemma_sdiv_exact(q.w as int, SCALE as int);
}

/// One component of a normalization: dividing `c * SCALE` by the measured
/// norm `n` leaves a quotient no larger than `SCALE` in magnitude, with a
/// truncation remainder smaller than `n` in magnitude.
proof fn lemma_normalize_component(c: int, n: int)
    requires
        0 < n,
        -n <= c <= n,
    ensures
        -(SCALE as int) <= sdiv(c * (SCALE as int), n) <= SCALE,
        sat(sdiv(c * (SCALE as int), n)) == sdiv(c * (SCALE as int), n),
        -n < c * (SCALE as int) - n * sdiv(c * (SCALE as int), n) < n,
{
    let s = SCALE as int;
    lemma_mul_bound(c, s, n, s);
    lemma_sdiv_mag(c * s, n, s);
    lemma_sdiv_rem(c * s, n);
}

/// Distributing a factor over a four-term sum.
proof fn lemma_factor4(k: int, a: int, b: int, c: int, d: int)
    ensures
        k * (a + b + c + d) == k * a + k * b + k * c + k * d,
{
    assert(k * (a + b + c + d) == k * a + k * b + k * c + k * d) by (nonlinear_arith);
}

/// The square of `c * SCALE`, written through its truncated division by
/// `n`: with `c * SCALE == n * d + e`, the square
/// `SCALE^2 * c^2` equals `n^2 d^2 + 2 n d e + e^2`.
proof fn lemma_comp_sq(c: int, n: int, d: int, e: int)
    requires
        c * 1_000_000 == n * d + e,
    ensures
        1_000_000_000_000 * (c * c) == n * n * (d * d) + 2 * (n * (d * e)) + e * e,
{
    assert(1_000_000_000_000 * (c * c) == n * n * (d * d) + 2 * (n * (d * e)) + e * e)
        by (nonlinear_arith)
        requires
            c * 1_000_000 == n * d + e,
    {
    }
}

/// Unit-norm convergence of drift correction: renormalizing any
/// orientation in the working range whose norm is at least one half
/// (squared norm at least `(SCALE / 2)^2`) brings its squared norm within
/// `12 * SCALE` raw units of `SCALE * SCALE` — the norm itself within
/// about `6e-6` of one.
#[verifier::rlimit(60)]
pub proof fn lemma_normalize_unit_norm(q: Quat)
    requires
        bounded(q),
        norm2_spec(q) >= 250_000_000_000,
    ensures
        999_988_000_000 <= norm2_spec(normalize_spec(q)) <= 1_000_012_000_000,
{
    let x = q.x as int;
    let y = q.y as int;
    let z = q.z as int;
    let w = q.w as int;
    let n2 = norm2_spec(q);
    assert(x * x >= 0) by (nonlinear_arith);
    assert(y * y >= 0) by (nonlinear_arith);
    assert(z * z >= 0) by (nonlinear_arith);
    assert(w * w >= 0) by (nonlinear_arith);
    lemma_mul_bound(x, x, LIMIT as int, LIMIT as int);
    lemma_mul_bound(y, y, LIMIT as int, LIMIT as int);
    lemma_mul_bound(z, z, LIMIT as int, LIMIT as int);
    lemma_mul_bound(w, w, LIMIT as int, LIMIT as int);
    lemma_isqrt_bounds(n2 as nat);
    let n = isqrt_spec(n2 as nat) as int;
    assert(n * n <= n2 < (n + 1) * (n + 1));
    assert(n >= 500_000) by (nonlinear_arith)
        requires
            (n + 1) * (n + 1) > 250_000_000_000,
            n >= 0,
    {
    }
    // Each component is bounded by the measured norm.
    assert(x * x <= n2 && y * y <= n2 && z * z <= n2 && w * w <= n2);
    assert(-n <= x <= n) by (nonlinear_arith)
        requires
            x * x < (n + 1) * (n + 1),
            n >= 0,
    {
    }
    assert(-n <= y <= n) by (nonlinear_arith)
        requires
            y * y < (n + 1) * (n + 1),
            n >= 0,
    {
    }
    assert(-n <= z <= n) by (nonlinear_arith)
        requires
            z * z < (n + 1) * (n + 1),
            n >= 0,
    {
    }
    assert(-n <= w <= n) by (nonlinear_arith)
        requires
            w * w < (n + 1) * (n + 1),
            n >= 0,
    {
    }
    // The normalized components, and the truncation remainders.
    lemma_normalize_component(x, n);
    lemma_normalize_component(y, n);
    lemma_normalize_component(z, n);
    lemma_normalize_component(w, n);
    let s = SCALE as int;
    let nx = sdiv(x * s, n);
    let ny = sdiv(y * s, n);
    let nz = sdiv(z * s, n);
    let nw = sdiv(w * s, n);
    let ex = x * s - n * nx;
    let ey = y * s - n * ny;
    let ez = z * s - n * nz;
    let ew = w * s - n * nw;
    let r = normalize_spec(q);
    assert(r.x == nx && r.y == ny && r.z == nz && r.w == nw);
    let np = norm2_spec(r);
    assert(np == nx * nx + ny * ny + nz * nz + nw * nw);
    // Expand each squared component of `q * SCALE` through its quotient
    // and remainder, and sum the four expansions.
    lemma_comp_sq(x, n, nx, ex);
    lemma_comp_sq(y, n, ny, ey);
    lemma_comp_sq(z, n, nz, ez);
    lemma_comp_sq(w, n, nw, ew);
    let ce = nx * ex + ny * ey + nz * ez + nw * ew;
    let e2 = ex * ex + ey * ey + ez * ez + ew * ew;
    lemma_factor4(n * n, nx * nx, ny * ny, nz * nz, nw * nw);
    lemma_factor4(n, nx * ex, ny * ey, nz * ez, nw * ew);
    assert(1_000_000_000_000 * n2 == n * n * np + 2 * (n * ce) + e2);
    // Bounds on the cross term and the remainder term.
    lemma_mul_bound(nx, ex, 1_000_000, n);
    lemma_mul_bound(ny, ey, 1_000_000, n);
    lemma_mul_bound(nz, ez, 1_000_000, n);
    lemma_mul_bound(nw, ew, 1_000_000, n);
    assert(-(4_000_000 * n) <= ce <= 4_000_000 * n);
    assert(-(4_000_000 * (n * n)) <= n * ce <= 4_000_000 * (n * n)) by (nonlinear_arith)
        requires
            -(4_000_000 * n) <= ce <= 4_000_000 * n,
            n >= 0,
    {
    }
    lemma_mul_bound(ex, ex, n, n);
    lemma_mul_bound(ey, ey, n, n);
    lemma_mul_bound(ez, ez, n, n);
    lemma_mul_bound(ew, ew, n, n);
    assert(ex * ex >= 0) by (nonlinear_arith);
    assert(ey * ey >= 0) by (nonlinear_arith);
    assert(ez * ez >= 0) by (nonlinear_arith);
    assert(ew * ew >= 0) by (nonlinear_arith);
    assert(0 <= e2 <= 4 * (n * n));
    // Upper bound.
    assert(n2 <= n * n + 2 * n) by (nonlinear_arith)
        requires
            n2 < (n + 1) * (n + 1),
    {
    }
    assert(2_000_000_000_000 * n <= 4_000_000 * (n * n)) by (nonlinear_arith)
        requires
            n >= 500_000,
    {
    }
    assert(n * n * np <= 1_000_000_000_000 * (n * n) + 2_000_000_000_000 * n + 8_000_000 * (n
        * n));
    assert(n * n * np <= (n * n) * 1_000_012_000_000);
    assert(np <= 1_000_012_000_000) by (nonlinear_arith)
        requires
            n * n * np <= (n * n) * 1_000_012_000_000,
            n > 0,
    {
    }
    // Lower bound.
    assert(n * n * np >= 1_000_000_000_000 * (n * n) - 8_000_000 * (n * n) - 4 * (n * n));
    assert(n * n * np >= (n * n) * 999_988_000_000);
    assert(np >= 999_988_000_000) by (nonlinear_arith)
        requires
            n * n * np >= (n * n) * 999_988_000_000,
            n > 0,
    {
    }
}

/// Idempotence of drift correction: when one application of normalization
/// lands the norm exactly on the fixed-point grid, applying it twice in
/// succession is the same as applying it once. (The coarseness of the grid
/// makes this false of a handful of values whose renormalized norm still
/// truncates below one; the hypothesis names exactly the values on which a
/// second application is settled.)
pub proof fn lemma_normalize_idempotent(q: Quat)
    requires
        bounded(q),
        isqrt_spec(norm2_spec(normalize_spec(q)) as nat) == SCALE,
    ensures
        normalize_spec(normalize_spec(q)) == normalize_spec(q),
{
    lemma_normalize_spec_bounded(q);
    lemma_normalize_fixed_point(normalize_spec(q));
}

/// Order of composition, checked at the identity orientation: a purely
/// horizontal drag of `dx` pixels rotates by exactly `dx * ROT_SPEED`
/// about the world Y axis — the X-axis term of the composition is the
/// identity and drops out, and at identity the object's own Y axis is the
/// world Y axis.
pub proof fn lemma_identity_drag(dx: i32)
    ensures
        apply_drag_spec(identity_spec(), dx, 0) == from_axis_angle_spec(
            unit_y_spec(),
            (dx as int) * (ROT_SPEED as int),
        ),
{
    let id = identity_spec();
    lemma_rotate_inverse_identity(unit_x_spec());
    lemma_rotate_inverse_identity(unit_y_spec());
    assert((0int) * (ROT_SPEED as int) == 0);
    lemma_from_axis_angle_zero(unit_x_spec());
    let iy = from_axis_angle_spec(unit_y_spec(), (dx as int) * (ROT_SPEED as int));
    let half = sdiv(sat_angle((dx as int) * (ROT_SPEED as int)), 2);
    lemma_sin_cos_range(half);
    assert(bounded(iy));
    lemma_mul_identity_left(iy);
}

/// Whether all components are within the working range.
pub fn is_bounded(q: &Quat) -> (b: bool)
    ensures
        b == bounded(*q),
{
    -LIMIT <= q.x && q.x <= LIMIT && -LIMIT <= q.y && q.y <= LIMIT && -LIMIT <= q.z && q.z
        <= LIMIT && -LIMIT <= q.w && q.w <= LIMIT
}

} // verus!
