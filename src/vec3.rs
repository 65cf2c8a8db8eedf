//! Three-component integer vectors. The integer operations (`add`, `sub`,
//! `mul`, `div`, `dot`, `cross`) are exact; `scaled`, `mul_elem`, `unit`
//! and `reflect` read the components as fixed-point numbers.
use vstd::prelude::*;
use crate::fixed::{fits, tdiv, fmul, is_sqrt, sqrt_floor, isqrt, lemma_tdiv_bound, lemma_sqrt_exists, floor_div, ceil_div, away_div, lemma_directed_div, lemma_directed_div_bound, floor_div_exec, ceil_div_exec, SCALE, LIMIT};
use vstd::arithmetic::div_mod::lemma_fundamental_div_mod;

verus! {

/// Bound on components under which a dot or cross product fits in `i128`.
pub const WIDE: i64 = 0x4000_0000_0000_0000;

/// Bound on components under which `unit` can compute the length at
/// fixed-point precision.
pub const UNIT_BOUND: i64 = 0x800_0000_0000;

/// `|a * c| <= b * b` when both factors lie in `[-b, b]`.
pub proof fn lemma_mul_bound(a: int, c: int, b: int)
    requires
        -b <= a <= b,
        -b <= c <= b,
    ensures
        -(b * b) <= a * c <= b * b,
{
    assert(-(b * b) <= a * c <= b * b) by (nonlinear_arith)
        requires
            -b <= a <= b,
            -b <= c <= b,
    ;
}

/// A component whose square is at most `n` is bounded by the integer square
/// root of `n`, so dividing it by that root gives a fixed-point value in
/// `[-SCALE, SCALE]`.
pub proof fn lemma_unit_component(x: int, n: int, len: int)
    requires
        x * x <= n,
        is_sqrt(n, len),
        len > 0,
    ensures
        -SCALE <= tdiv(x * SCALE, len) <= SCALE,
        -(SCALE * len) <= x * SCALE <= SCALE * len,
{
    assert(-len <= x <= len) by (nonlinear_arith)
        requires
            x * x <= n,
            n < (len + 1) * (len + 1),
            len > 0,
    ;
    lemma_mul_bound(x, x, len);
    assert(-(SCALE * len) <= x * SCALE <= SCALE * len) by (nonlinear_arith)
        requires
            -len <= x <= len,
            len > 0,
    ;
    lemma_tdiv_bound(x * SCALE, len, SCALE as int);
}

/// The squares of the components of `v` are each at most `dot(v, v)`.
pub proof fn lemma_squares_le(v: Vec3)
    ensures
        v.x * v.x <= v.dot_spec(v),
        v.y * v.y <= v.dot_spec(v),
        v.z * v.z <= v.dot_spec(v),
        v.dot_spec(v) >= 0,
        v.dot_spec(v) == 0 <==> v.is_zero(),
{
    assert(v.x * v.x >= 0 && v.y * v.y >= 0 && v.z * v.z >= 0) by (nonlinear_arith);
    if v.dot_spec(v) == 0 {
        assert(v.x == 0) by (nonlinear_arith)
            requires
                v.x * v.x == 0,
        ;
        assert(v.y == 0) by (nonlinear_arith)
            requires
                v.y * v.y == 0,
        ;
        assert(v.z == 0) by (nonlinear_arith)
            requires
                v.z * v.z == 0,
        ;
    }
}

/// Scaling a vector by `SCALE` scales its dot product by `SCALE * SCALE`.
pub proof fn lemma_scaled_squares(v: Vec3)
    ensures
        (v.x * SCALE) * (v.x * SCALE) <= v.dot_spec(v) * (SCALE * SCALE),
        (v.y * SCALE) * (v.y * SCALE) <= v.dot_spec(v) * (SCALE * SCALE),
        (v.z * SCALE) * (v.z * SCALE) <= v.dot_spec(v) * (SCALE * SCALE),
        v.dot_spec(v) * (SCALE * SCALE) >= 0,
        v.dot_spec(v) >= 0,
        v.dot_spec(v) == 0 <==> v.is_zero(),
{
    lemma_squares_le(v);
    let s = SCALE as int;
    let n = v.dot_spec(v);
    assert((v.x * s) * (v.x * s) == (v.x * v.x) * (s * s)) by (nonlinear_arith);
    assert((v.y * s) * (v.y * s) == (v.y * v.y) * (s * s)) by (nonlinear_arith);
    assert((v.z * s) * (v.z * s) == (v.z * v.z) * (s * s)) by (nonlinear_arith);
    assert((v.x * v.x) * (s * s) <= n * (s * s)) by (nonlinear_arith)
        requires v.x * v.x <= n, s > 0;
    assert((v.y * v.y) * (s * s) <= n * (s * s)) by (nonlinear_arith)
        requires v.y * v.y <= n, s > 0;
    assert((v.z * v.z) * (s * s) <= n * (s * s)) by (nonlinear_arith)
        requires v.z * v.z <= n, s > 0;
    assert(n * (s * s) >= 0) by (nonlinear_arith)
        requires n >= 0, s > 0;
}

/// `unit_spec` yields components in `[-SCALE, SCALE]`.
pub proof fn lemma_unit_bounded(v: Vec3)
    ensures
        v.unit_spec().bounded(SCALE as int),
{
    lemma_scaled_squares(v);
    let s = SCALE as int;
    let n = v.dot_spec(v) * (s * s);
    lemma_sqrt_exists(n);
    let len = v.fixed_length_spec();
    if !v.is_zero() {
        assert(n > 0) by (nonlinear_arith)
            requires v.dot_spec(v) > 0, n == v.dot_spec(v) * (s * s), s > 0;
        if len == 0 {
            assert(n < 1) by (nonlinear_arith)
                requires
                    n < (len + 1) * (len + 1),
                    len == 0,
            ;
        }
        lemma_unit_component(v.x * s, n, len);
        lemma_unit_component(v.y * s, n, len);
        lemma_unit_component(v.z * s, n, len);
        assert((v.x * s) * s == v.x * (s * s)) by (nonlinear_arith);
        assert((v.y * s) * s == v.y * (s * s)) by (nonlinear_arith);
        assert((v.z * s) * s == v.z * (s * s)) by (nonlinear_arith);
    }
}

/// One component of `unit_spec`: `q = tdiv(x * SCALE, len)` satisfies
/// `q^2 len^2 <= x^2 SCALE^2 < (|q| + 1)^2 len^2`.
proof fn lemma_unit_component_square(x: int, len: int)
    requires
        len > 0,
    ensures
        tdiv(x * SCALE, len) * tdiv(x * SCALE, len) * (len * len) <= (x * x) * (SCALE * SCALE),
        (x * x) * (SCALE * SCALE) < (abs_int(tdiv(x * SCALE, len)) + 1) * (abs_int(tdiv(x * SCALE, len)) + 1) * (len * len),
{
    let s = SCALE as int;
    let a = abs_int(x);
    assert(a * s >= 0) by (nonlinear_arith) requires a >= 0, s > 0;
    let q = (a * s) / len;
    let rem = (a * s) % len;
    lemma_fundamental_div_mod(a * s, len);
    assert(0 <= rem < len);
    vstd::arithmetic::div_mod::lemma_div_pos_is_pos(a * s, len);
    if x >= 0 {
        assert(tdiv(x * s, len) == q);
    } else {
        assert(-(x * s) == a * s) by (nonlinear_arith) requires a == -x;
        assert(tdiv(x * s, len) == -q);
    }
    assert(abs_int(tdiv(x * s, len)) == q);
    assert(tdiv(x * s, len) * tdiv(x * s, len) == q * q) by (nonlinear_arith)
        requires tdiv(x * s, len) == q || tdiv(x * s, len) == -q;
    assert(x * x == a * a) by (nonlinear_arith) requires a == x || a == -x;
    assert(q * q * (len * len) <= (a * a) * (s * s)) by (nonlinear_arith)
        requires a * s == len * q + rem, 0 <= rem, q >= 0, len > 0;
    assert((a * a) * (s * s) < (q + 1) * (q + 1) * (len * len)) by (nonlinear_arith)
        requires a * s == len * q + rem, 0 <= rem < len, q >= 0, a >= 0, s > 0;
}

pub open spec fn abs_int(x: int) -> int {
    if x >= 0 { x } else { -x }
}

/// A normalized vector has fixed-point length one within rounding:
/// `SCALE^2 - 6 SCALE - 3 < |unit(v)|^2 <= SCALE^2 + 2 SCALE` for every
/// non-zero `v`.
pub proof fn lemma_unit_length(v: Vec3)
    requires
        !v.is_zero(),
    ensures
        SCALE * SCALE - 6 * SCALE - 3 < v.unit_spec().dot_spec(v.unit_spec()) <= SCALE * SCALE + 2 * SCALE,
{
    let s = SCALE as int;
    lemma_scaled_squares(v);
    lemma_unit_bounded(v);
    let n = v.dot_spec(v) * (s * s);
    lemma_sqrt_exists(n);
    let len = v.fixed_length_spec();
    let u = v.unit_spec();
    let (xs, ys, zs) = (v.x * s, v.y * s, v.z * s);
    assert(xs * xs == (v.x * v.x) * (s * s)) by (nonlinear_arith) requires xs == v.x * s;
    assert(ys * ys == (v.y * v.y) * (s * s)) by (nonlinear_arith) requires ys == v.y * s;
    assert(zs * zs == (v.z * v.z) * (s * s)) by (nonlinear_arith) requires zs == v.z * s;
    assert(n == xs * xs + ys * ys + zs * zs) by (nonlinear_arith)
        requires
            n == (v.x * v.x + v.y * v.y + v.z * v.z) * (s * s),
            xs * xs == (v.x * v.x) * (s * s),
            ys * ys == (v.y * v.y) * (s * s),
            zs * zs == (v.z * v.z) * (s * s),
    ;
    assert(n >= s * s) by (nonlinear_arith)
        requires v.dot_spec(v) >= 1, n == v.dot_spec(v) * (s * s), s > 0;
    assert(len >= s) by (nonlinear_arith)
        requires n >= s * s, n < (len + 1) * (len + 1), len >= 0, s > 0;
    assert((xs * s) == v.x * (s * s) && (ys * s) == v.y * (s * s) && (zs * s) == v.z * (s * s))
        by (nonlinear_arith) requires xs == v.x * s, ys == v.y * s, zs == v.z * s;
    lemma_unit_component_square(xs, len);
    lemma_unit_component_square(ys, len);
    lemma_unit_component_square(zs, len);
    lemma_unit_component(xs, n, len);
    lemma_unit_component(ys, n, len);
    lemma_unit_component(zs, n, len);
    assert(u.x as int == tdiv(xs * s, len));
    assert(u.y as int == tdiv(ys * s, len));
    assert(u.z as int == tdiv(zs * s, len));
    let (qx, qy, qz) = (u.x as int, u.y as int, u.z as int);
    let q2 = qx * qx + qy * qy + qz * qz;
    let ll = len * len;
    assert(q2 >= 0 && ll > 0) by (nonlinear_arith)
        requires q2 == qx * qx + qy * qy + qz * qz, ll == len * len, len > 0;
    assert(q2 * ll <= n * (s * s)) by (nonlinear_arith)
        requires qx * qx * ll <= (xs * xs) * (s * s), qy * qy * ll <= (ys * ys) * (s * s),
            qz * qz * ll <= (zs * zs) * (s * s), n == xs * xs + ys * ys + zs * zs, q2 == qx * qx + qy * qy + qz * qz;
    assert(n * (s * s) < (len + 1) * (len + 1) * (s * s)) by (nonlinear_arith)
        requires n < (len + 1) * (len + 1), s > 0;
    assert(q2 <= s * s + 2 * s) by (nonlinear_arith)
        requires q2 * (len * len) < (len + 1) * (len + 1) * (s * s), len >= s, s > 0, q2 >= 0;
    let (ax, ay, az) = (abs_int(qx), abs_int(qy), abs_int(qz));
    assert(0 <= ax <= s && 0 <= ay <= s && 0 <= az <= s);
    assert(n * (s * s) < ((ax + 1) * (ax + 1) + (ay + 1) * (ay + 1) + (az + 1) * (az + 1)) * ll)
        by (nonlinear_arith)
        requires (xs * xs) * (s * s) < (ax + 1) * (ax + 1) * ll, (ys * ys) * (s * s) < (ay + 1) * (ay + 1) * ll,
            (zs * zs) * (s * s) < (az + 1) * (az + 1) * ll, n == xs * xs + ys * ys + zs * zs;
    assert(ll * (s * s) <= n * (s * s)) by (nonlinear_arith)
        requires len * len <= n, ll == len * len, s > 0;
    assert((ax + 1) * (ax + 1) + (ay + 1) * (ay + 1) + (az + 1) * (az + 1) > s * s) by (nonlinear_arith)
        requires ll * (s * s) < ((ax + 1) * (ax + 1) + (ay + 1) * (ay + 1) + (az + 1) * (az + 1)) * ll, ll > 0;
    assert(q2 == ax * ax + ay * ay + az * az) by (nonlinear_arith)
        requires (ax == qx || ax == -qx), (ay == qy || ay == -qy), (az == qz || az == -qz), q2 == qx * qx + qy * qy + qz * qz;
    assert(q2 > s * s - 6 * s - 3) by (nonlinear_arith)
        requires
            (ax + 1) * (ax + 1) + (ay + 1) * (ay + 1) + (az + 1) * (az + 1) > s * s,
            q2 == ax * ax + ay * ay + az * az,
            ax <= s, ay <= s, az <= s,
    ;
    assert(u.dot_spec(u) == q2);
}

/// `n` can serve as a reflection axis: components in `[-1, 1]` and squared
/// length at least one half.
pub open spec fn is_axis(n: Vec3) -> bool {
    n.bounded(SCALE as int) && 2 * n.dot_spec(n) >= SCALE * SCALE
}

/// The correction that `reflect` adds along the axis, per component:
/// `c * n_i / |n|^2` with `c = -2 dot(v, n)`, rounded away from zero.
pub open spec fn reflect_correction(v: Vec3, n: Vec3, ni: int) -> int {
    away_div(-2 * v.dot_spec(n) * ni, n.dot_spec(n))
}

/// One component of the reflection's correction: `e = (m |n|^2 - c n_i) n_i`
/// has the sign of `c` and magnitude at most `|n|^2 |n_i|`.
proof fn lemma_correction_component(c: int, ni: int, nn: int)
    requires
        nn > 0,
    ensures
        c >= 0 ==> 0 <= (away_div(c * ni, nn) * nn - c * ni) * ni <= nn * abs_int(ni),
        c < 0 ==> -(nn * abs_int(ni)) <= (away_div(c * ni, nn) * nn - c * ni) * ni <= 0,
{
    let a = c * ni;
    let m = away_div(a, nn);
    lemma_directed_div(a, nn);
    let d = m * nn - a;
    if a >= 0 {
        assert(0 <= d < nn);
    } else {
        assert(-nn < d <= 0);
    }
    if ni > 0 {
        if c >= 0 {
            assert(a >= 0) by (nonlinear_arith) requires a == c * ni, c >= 0, ni > 0;
            assert(0 <= d * ni <= nn * ni) by (nonlinear_arith) requires 0 <= d < nn, ni > 0;
        } else {
            assert(a < 0) by (nonlinear_arith) requires a == c * ni, c < 0, ni > 0;
            assert(-(nn * ni) <= d * ni <= 0) by (nonlinear_arith) requires -nn < d <= 0, ni > 0;
        }
    } else if ni < 0 {
        if c > 0 {
            assert(a < 0) by (nonlinear_arith) requires a == c * ni, c > 0, ni < 0;
            assert(0 <= d * ni <= nn * (-ni)) by (nonlinear_arith) requires -nn < d <= 0, ni < 0;
        } else if c == 0 {
            assert(a == 0) by (nonlinear_arith) requires a == c * ni, c == 0;
            assert(m == 0) by (nonlinear_arith) requires 0 <= m * nn < nn, nn > 0;
            assert(d * ni == 0);
        } else {
            assert(a > 0) by (nonlinear_arith) requires a == c * ni, c < 0, ni < 0;
            assert(-(nn * (-ni)) <= d * ni <= 0) by (nonlinear_arith) requires 0 <= d < nn, ni < 0;
        }
    } else {
        assert(d * ni == 0) by (nonlinear_arith) requires ni == 0;
    }
}

/// Bounds for `reflect`: a vector with components in `[-b, b]`, reflected
/// about an axis, has components in `[-13b, 13b]`.
pub proof fn lemma_reflect_bound(v: Vec3, n: Vec3, b: int)
    requires
        0 <= b <= LIMIT,
        v.bounded(b),
        is_axis(n),
    ensures
        -(12 * b) <= reflect_correction(v, n, n.x as int) <= 12 * b,
        -(12 * b) <= reflect_correction(v, n, n.y as int) <= 12 * b,
        -(12 * b) <= reflect_correction(v, n, n.z as int) <= 12 * b,
        v.reflect_spec(n).bounded(13 * b),
{
    let s = SCALE as int;
    let nn = n.dot_spec(n);
    assert(-(b * s) <= v.x * n.x <= b * s) by (nonlinear_arith)
        requires -b <= v.x <= b, -s <= n.x <= s, b >= 0, s >= 0;
    assert(-(b * s) <= v.y * n.y <= b * s) by (nonlinear_arith)
        requires -b <= v.y <= b, -s <= n.y <= s, b >= 0, s >= 0;
    assert(-(b * s) <= v.z * n.z <= b * s) by (nonlinear_arith)
        requires -b <= v.z <= b, -s <= n.z <= s, b >= 0, s >= 0;
    let c = -2 * v.dot_spec(n);
    assert(-(6 * b * s) <= c <= 6 * b * s);
    assert(forall|ni: int| -s <= ni <= s ==> -((12 * b) * nn) <= #[trigger] (c * ni) <= (12 * b) * nn)
        by {
        assert forall|ni: int| -s <= ni <= s implies -((12 * b) * nn) <= #[trigger] (c * ni) <= (12 * b) * nn by {
            assert(-((12 * b) * nn) <= c * ni <= (12 * b) * nn) by (nonlinear_arith)
                requires -(6 * b * s) <= c <= 6 * b * s, -s <= ni <= s, 2 * nn >= s * s, b >= 0, s > 0;
        }
    }
    assert(nn > 0) by (nonlinear_arith) requires 2 * nn >= s * s, s > 0;
    lemma_directed_div_bound(c * n.x, nn, 12 * b);
    lemma_directed_div_bound(c * n.y, nn, 12 * b);
    lemma_directed_div_bound(c * n.z, nn, 12 * b);
}

/// Mirror law: reflecting `v` about an axis `n` (any vector with components
/// in `[-1, 1]` and squared length at least one half) negates its component
/// along `n` within rounding, `|dot(reflect(v, n), n) + dot(v, n)| <= 3 SCALE`
/// where one unit of a dot product is `SCALE^2`; and the rounding never
/// pulls a vector arriving against `n` back below the surface:
/// `dot(reflect(v, n), n) >= -dot(v, n)` when `dot(v, n) <= 0`.
pub proof fn lemma_mirror_law(v: Vec3, n: Vec3)
    requires
        v.bounded(LIMIT as int),
        is_axis(n),
    ensures
        -(3 * SCALE) <= v.reflect_spec(n).dot_spec(n) + v.dot_spec(n) <= 3 * SCALE,
        v.dot_spec(n) <= 0 ==> v.reflect_spec(n).dot_spec(n) >= -v.dot_spec(n),
        v.dot_spec(n) > 0 ==> v.reflect_spec(n).dot_spec(n) <= -v.dot_spec(n),
{
    let s = SCALE as int;
    lemma_reflect_bound(v, n, LIMIT as int);
    let nn = n.dot_spec(n);
    assert(nn > 0) by (nonlinear_arith) requires 2 * nn >= s * s, s > 0;
    let c = -2 * v.dot_spec(n);
    lemma_correction_component(c, n.x as int, nn);
    lemma_correction_component(c, n.y as int, nn);
    lemma_correction_component(c, n.z as int, nn);
    let (mx, my, mz) = (away_div(c * n.x, nn), away_div(c * n.y, nn), away_div(c * n.z, nn));
    let r = v.reflect_spec(n);
    assert(r.x == v.x + mx && r.y == v.y + my && r.z == v.z + mz);
    let mn = mx * n.x + my * n.y + mz * n.z;
    let (ex, ey, ez) = ((mx * nn - c * n.x) * n.x, (my * nn - c * n.y) * n.y, (mz * nn - c * n.z) * n.z);
    assert(ex == (mx * n.x) * nn - c * (n.x * n.x)) by (nonlinear_arith)
        requires ex == (mx * nn - c * n.x) * n.x;
    assert(ey == (my * n.y) * nn - c * (n.y * n.y)) by (nonlinear_arith)
        requires ey == (my * nn - c * n.y) * n.y;
    assert(ez == (mz * n.z) * nn - c * (n.z * n.z)) by (nonlinear_arith)
        requires ez == (mz * nn - c * n.z) * n.z;
    assert(nn * mn == (mx * n.x) * nn + (my * n.y) * nn + (mz * n.z) * nn) by (nonlinear_arith)
        requires mn == mx * n.x + my * n.y + mz * n.z;
    assert(c * nn == c * (n.x * n.x) + c * (n.y * n.y) + c * (n.z * n.z)) by (nonlinear_arith)
        requires nn == n.x * n.x + n.y * n.y + n.z * n.z;
    assert(nn * (mn - c) == nn * mn - c * nn) by (nonlinear_arith);
    assert(nn * (mn - c) == ex + ey + ez);
    let an = abs_int(n.x as int) + abs_int(n.y as int) + abs_int(n.z as int);
    assert(an <= 3 * s);
    assert(nn * an == nn * abs_int(n.x as int) + nn * abs_int(n.y as int) + nn * abs_int(n.z as int))
        by (nonlinear_arith)
        requires an == abs_int(n.x as int) + abs_int(n.y as int) + abs_int(n.z as int);
    assert(r.dot_spec(n) + v.dot_spec(n) == mn - c) by (nonlinear_arith)
        requires
            r.x == v.x + mx, r.y == v.y + my, r.z == v.z + mz,
            mn == mx * n.x + my * n.y + mz * n.z,
            c == -2 * (v.x * n.x + v.y * n.y + v.z * n.z);
    if c >= 0 {
        assert(0 <= mn - c <= 3 * s) by (nonlinear_arith)
            requires
                nn * (mn - c) == ex + ey + ez,
                0 <= ex + ey + ez <= nn * an,
                an <= 3 * s,
                nn > 0;
    } else {
        assert(-(3 * s) <= mn - c <= 0) by (nonlinear_arith)
            requires
                nn * (mn - c) == ex + ey + ez,
                -(nn * an) <= ex + ey + ez <= 0,
                an <= 3 * s,
                nn > 0;
    }
}

/// Rounding of `a / b` (`b > 0`) away from the side `s` points to: down when
/// `s > 0`, up otherwise.
pub open spec fn against_div(a: int, b: int, s: int) -> int {
    if s > 0 {
        floor_div(a, b)
    } else {
        ceil_div(a, b)
    }
}

/// `unit_against` keeps a direction that points against `n` pointing against
/// it, and yields components in `[-SCALE, SCALE]`.
pub proof fn lemma_unit_against(d: Vec3, n: Vec3)
    ensures
        d.unit_against_spec(n).bounded(SCALE as int),
        d.dot_spec(n) < 0 ==> d.unit_against_spec(n).dot_spec(n) < 0,
{
    let s = SCALE as int;
    lemma_scaled_squares(d);
    let nsq = d.dot_spec(d) * (s * s);
    lemma_sqrt_exists(nsq);
    let len = d.fixed_length_spec();
    if !d.is_zero() {
        assert(nsq > 0) by (nonlinear_arith)
            requires d.dot_spec(d) > 0, nsq == d.dot_spec(d) * (s * s), s > 0;
        if len == 0 {
            assert(nsq < 1) by (nonlinear_arith)
                requires nsq < (len + 1) * (len + 1), len == 0;
        }
        lemma_unit_component(d.x * s, nsq, len);
        lemma_unit_component(d.y * s, nsq, len);
        lemma_unit_component(d.z * s, nsq, len);
        let (ax, ay, az) = (d.x * (s * s), d.y * (s * s), d.z * (s * s));
        assert((d.x * s) * s == ax && (d.y * s) * s == ay && (d.z * s) * s == az) by (nonlinear_arith)
            requires ax == d.x * (s * s), ay == d.y * (s * s), az == d.z * (s * s);
        lemma_directed_div_bound(ax, len, s);
        lemma_directed_div_bound(ay, len, s);
        lemma_directed_div_bound(az, len, s);
        lemma_directed_div(ax, len);
        lemma_directed_div(ay, len);
        lemma_directed_div(az, len);
        let v = d.unit_against_spec(n);
        let (vx, vy, vz) = (v.x as int, v.y as int, v.z as int);
        assert(vx * n.x * len <= ax * n.x) by (nonlinear_arith)
            requires
                n.x > 0 ==> vx * len <= ax,
                n.x <= 0 ==> ax <= vx * len;
        assert(vy * n.y * len <= ay * n.y) by (nonlinear_arith)
            requires
                n.y > 0 ==> vy * len <= ay,
                n.y <= 0 ==> ay <= vy * len;
        assert(vz * n.z * len <= az * n.z) by (nonlinear_arith)
            requires
                n.z > 0 ==> vz * len <= az,
                n.z <= 0 ==> az <= vz * len;
        if d.dot_spec(n) < 0 {
            let vn = v.dot_spec(n);
            assert(vn * len == vx * n.x * len + vy * n.y * len + vz * n.z * len) by (nonlinear_arith)
                requires vn == vx * n.x + vy * n.y + vz * n.z;
            assert(ax * n.x == (s * s) * (d.x * n.x)) by (nonlinear_arith) requires ax == d.x * (s * s);
            assert(ay * n.y == (s * s) * (d.y * n.y)) by (nonlinear_arith) requires ay == d.y * (s * s);
            assert(az * n.z == (s * s) * (d.z * n.z)) by (nonlinear_arith) requires az == d.z * (s * s);
            assert((s * s) * (d.x * n.x) + (s * s) * (d.y * n.y) + (s * s) * (d.z * n.z) == (s * s)
                * d.dot_spec(n)) by (nonlinear_arith);
            assert((s * s) * d.dot_spec(n) < 0) by (nonlinear_arith)
                requires d.dot_spec(n) < 0, s > 0;
            assert(vn * len < 0);
            assert(vn < 0) by (nonlinear_arith) requires vn * len < 0, len > 0;
        }
    }
}

#[derive(Clone, Copy, Debug, PartialEq, Eq, Structural)]
pub struct Vec3 {
    pub x: i64,
    pub y: i64,
    pub z: i64,
}

impl Vec3 {
    /// Every component lies in `[-b, b]`.
    pub open spec fn bounded(self, b: int) -> bool {
        -b <= self.x <= b && -b <= self.y <= b && -b <= self.z <= b
    }

    pub open spec fn dot_spec(self, o: Vec3) -> int {
        self.x * o.x + self.y * o.y + self.z * o.z
    }

    /// Fixed-point length one within rounding, as `unit` produces for any
    /// non-zero vector.
    pub open spec fn near_unit(self) -> bool {
        SCALE * SCALE - 6 * SCALE - 3 < self.dot_spec(self) <= SCALE * SCALE + 2 * SCALE
    }

    pub open spec fn is_zero(self) -> bool {
        self.x == 0 && self.y == 0 && self.z == 0
    }

    /// Component-wise sum; meaningful when each sum fits in `i64`.
    pub open spec fn add_spec(self, o: Vec3) -> Vec3 {
        Vec3 { x: (self.x + o.x) as i64, y: (self.y + o.y) as i64, z: (self.z + o.z) as i64 }
    }

    /// Component-wise difference; meaningful when each difference fits in `i64`.
    pub open spec fn sub_spec(self, o: Vec3) -> Vec3 {
        Vec3 { x: (self.x - o.x) as i64, y: (self.y - o.y) as i64, z: (self.z - o.z) as i64 }
    }

    /// Cross product; meaningful when each component fits in `i64`.
    pub open spec fn cross_spec(self, o: Vec3) -> Vec3 {
        Vec3 {
            x: (self.y * o.z - self.z * o.y) as i64,
            y: (self.z * o.x - self.x * o.z) as i64,
            z: (self.x * o.y - self.y * o.x) as i64,
        }
    }

    /// Division of every component by `k`, rounding toward zero.
    pub open spec fn div_spec(self, k: int) -> Vec3 {
        Vec3 { x: tdiv(self.x as int, k) as i64, y: tdiv(self.y as int, k) as i64, z: tdiv(self.z as int, k) as i64 }
    }

    pub open spec fn neg_spec(self) -> Vec3 {
        Vec3 { x: -self.x as i64, y: -self.y as i64, z: -self.z as i64 }
    }

    /// Multiplication by the fixed-point scalar `t`.
    pub open spec fn scaled_spec(self, t: int) -> Vec3 {
        Vec3 { x: fmul(self.x as int, t) as i64, y: fmul(self.y as int, t) as i64, z: fmul(self.z as int, t) as i64 }
    }

    pub open spec fn scaled_fits(self, t: int) -> bool {
        fits(fmul(self.x as int, t)) && fits(fmul(self.y as int, t)) && fits(fmul(self.z as int, t))
    }

    /// Component-wise fixed-point product.
    pub open spec fn mul_elem_spec(self, o: Vec3) -> Vec3 {
        Vec3 { x: fmul(self.x as int, o.x as int) as i64, y: fmul(self.y as int, o.y as int) as i64, z: fmul(self.z as int, o.z as int) as i64 }
    }

    /// The integer length: the square root of `dot(self, self)`, rounded down.
    pub open spec fn length_spec(self) -> int {
        sqrt_floor(self.dot_spec(self))
    }

    /// The length as a fixed-point number, rounded down.
    pub open spec fn fixed_length_spec(self) -> int {
        sqrt_floor(self.dot_spec(self) * (SCALE * SCALE))
    }

    /// The direction of `self` with fixed-point length one; the zero vector stays zero.
    pub open spec fn unit_spec(self) -> Vec3 {
        let len = self.fixed_length_spec();
        if self.is_zero() {
            self
        } else {
            Vec3 {
                x: tdiv(self.x * (SCALE * SCALE), len) as i64,
                y: tdiv(self.y * (SCALE * SCALE), len) as i64,
                z: tdiv(self.z * (SCALE * SCALE), len) as i64,
            }
        }
    }

    /// Mirror image of `self` about the axis `n`:
    /// `self - 2 * dot(self, n) / |n|^2 * n`, the correction rounded away from zero.
    pub open spec fn reflect_spec(self, n: Vec3) -> Vec3 {
        Vec3 {
            x: (self.x + reflect_correction(self, n, n.x as int)) as i64,
            y: (self.y + reflect_correction(self, n, n.y as int)) as i64,
            z: (self.z + reflect_correction(self, n, n.z as int)) as i64,
        }
    }

    /// The direction of `self` with fixed-point length one, each component
    /// rounded away from the side that `n` points to.
    pub open spec fn unit_against_spec(self, n: Vec3) -> Vec3 {
        let len = self.fixed_length_spec();
        if self.is_zero() {
            self
        } else {
            Vec3 {
                x: against_div(self.x * (SCALE * SCALE), len, n.x as int) as i64,
                y: against_div(self.y * (SCALE * SCALE), len, n.y as int) as i64,
                z: against_div(self.z * (SCALE * SCALE), len, n.z as int) as i64,
            }
        }
    }

    pub fn new(x: i64, y: i64, z: i64) -> (r: Vec3)
        ensures
            r == (Vec3 { x, y, z }),
    {
        Vec3 { x, y, z }
    }

    pub fn x(&self) -> (r: i64)
        ensures
            r == self.x,
    {
        self.x
    }

    pub fn y(&self) -> (r: i64)
        ensures
            r == self.y,
    {
        self.y
    }

    pub fn z(&self) -> (r: i64)
        ensures
            r == self.z,
    {
        self.z
    }

    pub fn add(self, o: Vec3) -> (r: Vec3)
        requires
            fits(self.x + o.x),
            fits(self.y + o.y),
            fits(self.z + o.z),
        ensures
            r == self.add_spec(o),
            r.x == self.x + o.x,
            r.y == self.y + o.y,
            r.z == self.z + o.z,
    {
        Vec3 { x: self.x + o.x, y: self.y + o.y, z: self.z + o.z }
    }

    pub fn sub(self, o: Vec3) -> (r: Vec3)
        requires
            fits(self.x - o.x),
            fits(self.y - o.y),
            fits(self.z - o.z),
        ensures
            r == self.sub_spec(o),
            r.x == self.x - o.x,
            r.y == self.y - o.y,
            r.z == self.z - o.z,
    {
        Vec3 { x: self.x - o.x, y: self.y - o.y, z: self.z - o.z }
    }

    pub fn neg(self) -> (r: Vec3)
        requires
            self.x > i64::MIN,
            self.y > i64::MIN,
            self.z > i64::MIN,
        ensures
            r == self.neg_spec(),
            r.x == -self.x,
            r.y == -self.y,
            r.z == -self.z,
    {
        Vec3 { x: -self.x, y: -self.y, z: -self.z }
    }

    /// Multiplication of every component by the integer `k`.
    pub fn mul(self, k: i64) -> (r: Vec3)
        requires
            fits(self.x * k),
            fits(self.y * k),
            fits(self.z * k),
        ensures
            r.x == self.x * k,
            r.y == self.y * k,
            r.z == self.z * k,
    {
        Vec3 { x: self.x * k, y: self.y * k, z: self.z * k }
    }

    /// Division of every component by the positive integer `k`, rounding toward zero.
    pub fn div(self, k: i64) -> (r: Vec3)
        requires
            k > 0,
        ensures
            r == self.div_spec(k as int),
            r.x == tdiv(self.x as int, k as int),
            r.y == tdiv(self.y as int, k as int),
            r.z == tdiv(self.z as int, k as int),
    {
        Vec3 { x: self.x / k, y: self.y / k, z: self.z / k }
    }

    pub fn dot(&self, o: &Vec3) -> (r: i128)
        requires
            self.bounded(WIDE as int),
            o.bounded(WIDE as int),
        ensures
            r == self.dot_spec(*o),
    {
        proof {
            lemma_mul_bound(self.x as int, o.x as int, WIDE as int);
            lemma_mul_bound(self.y as int, o.y as int, WIDE as int);
            lemma_mul_bound(self.z as int, o.z as int, WIDE as int);
        }
        (self.x as i128) * (o.x as i128) + (self.y as i128) * (o.y as i128) + (self.z as i128) * (
        o.z as i128)
    }

    pub fn length_squared(&self) -> (r: i128)
        requires
            self.bounded(WIDE as int),
        ensures
            r == self.dot_spec(*self),
            r >= 0,
    {
        proof {
            assert(self.x * self.x >= 0 && self.y * self.y >= 0 && self.z * self.z >= 0)
                by (nonlinear_arith);
        }
        self.dot(self)
    }

    /// The length, rounded down to an integer.
    pub fn length(&self) -> (r: i64)
        requires
            self.bounded(WIDE as int),
        ensures
            r == self.length_spec(),
            is_sqrt(self.dot_spec(*self), r as int),
    {
        let n = self.length_squared();
        proof {
            lemma_mul_bound(self.x as int, self.x as int, WIDE as int);
            lemma_mul_bound(self.y as int, self.y as int, WIDE as int);
            lemma_mul_bound(self.z as int, self.z as int, WIDE as int);
        }
        let s = isqrt(n as u128);
        assert(s < 0x8000_0000_0000_0000u64) by (nonlinear_arith)
            requires
                s * s <= n,
                n <= 3 * 0x4000_0000_0000_0000int * 0x4000_0000_0000_0000int,
        ;
        s as i64
    }

    pub fn cross(&self, o: &Vec3) -> (r: Vec3)
        requires
            self.bounded(WIDE as int),
            o.bounded(WIDE as int),
            fits(self.y * o.z - self.z * o.y),
            fits(self.z * o.x - self.x * o.z),
            fits(self.x * o.y - self.y * o.x),
        ensures
            r == self.cross_spec(*o),
            r.x == self.y * o.z - self.z * o.y,
            r.y == self.z * o.x - self.x * o.z,
            r.z == self.x * o.y - self.y * o.x,
    {
        proof {
            lemma_mul_bound(self.y as int, o.z as int, WIDE as int);
            lemma_mul_bound(self.z as int, o.y as int, WIDE as int);
            lemma_mul_bound(self.z as int, o.x as int, WIDE as int);
            lemma_mul_bound(self.x as int, o.z as int, WIDE as int);
            lemma_mul_bound(self.x as int, o.y as int, WIDE as int);
            lemma_mul_bound(self.y as int, o.x as int, WIDE as int);
        }
        let x = (self.y as i128) * (o.z as i128) - (self.z as i128) * (o.y as i128);
        let y = (self.z as i128) * (o.x as i128) - (self.x as i128) * (o.z as i128);
        let z = (self.x as i128) * (o.y as i128) - (self.y as i128) * (o.x as i128);
        Vec3 { x: x as i64, y: y as i64, z: z as i64 }
    }

    /// Multiplication by the fixed-point scalar `t`, rounding toward zero.
    pub fn scaled(&self, t: i64) -> (r: Vec3)
        requires
            self.scaled_fits(t as int),
        ensures
            r == self.scaled_spec(t as int),
    {
        proof {
            lemma_mul_bound(self.x as int, t as int, 0x8000_0000_0000_0000int);
            lemma_mul_bound(self.y as int, t as int, 0x8000_0000_0000_0000int);
            lemma_mul_bound(self.z as int, t as int, 0x8000_0000_0000_0000int);
        }
        let s = SCALE as i128;
        let x = (self.x as i128) * (t as i128) / s;
        let y = (self.y as i128) * (t as i128) / s;
        let z = (self.z as i128) * (t as i128) / s;
        Vec3 { x: x as i64, y: y as i64, z: z as i64 }
    }

    /// Component-wise fixed-point product, rounding toward zero.
    pub fn mul_elem(&self, o: &Vec3) -> (r: Vec3)
        requires
            fits(fmul(self.x as int, o.x as int)),
            fits(fmul(self.y as int, o.y as int)),
            fits(fmul(self.z as int, o.z as int)),
        ensures
            r == self.mul_elem_spec(*o),
    {
        proof {
            lemma_mul_bound(self.x as int, o.x as int, 0x8000_0000_0000_0000int);
            lemma_mul_bound(self.y as int, o.y as int, 0x8000_0000_0000_0000int);
            lemma_mul_bound(self.z as int, o.z as int, 0x8000_0000_0000_0000int);
        }
        let s = SCALE as i128;
        let x = (self.x as i128) * (o.x as i128) / s;
        let y = (self.y as i128) * (o.y as i128) / s;
        let z = (self.z as i128) * (o.z as i128) / s;
        Vec3 { x: x as i64, y: y as i64, z: z as i64 }
    }
    /// The length as a fixed-point number, rounded down, of a non-zero vector.
    fn fixed_length(&self) -> (r: i128)
        requires
            self.bounded(UNIT_BOUND as int),
            !self.is_zero(),
        ensures
            r == self.fixed_length_spec(),
            0 < r < 0x1_0000_0000_0000_0000int,
    {
        proof {
            lemma_scaled_squares(*self);
        }
        let n = self.length_squared();
        let ghost b = UNIT_BOUND as int;
        proof {
            lemma_mul_bound(self.x as int, self.x as int, b);
            lemma_mul_bound(self.y as int, self.y as int, b);
            lemma_mul_bound(self.z as int, self.z as int, b);
            assert(n * (SCALE * SCALE) <= (3 * b * b) * (SCALE * SCALE)) by (nonlinear_arith)
                requires 0 <= n <= 3 * b * b;
            assert((3 * b * b) * (SCALE * SCALE) == 232_113_757_366_008_801_543_585_792_000_000_000_000int)
                by (nonlinear_arith)
                requires b == 0x800_0000_0000int, SCALE == 1_000_000int;
        }
        let s2: i128 = 1_000_000_000_000;
        assert(s2 == SCALE * SCALE) by (nonlinear_arith)
            requires s2 == 1_000_000_000_000int, SCALE == 1_000_000int;
        let n2 = (n as u128) * (s2 as u128);
        let len = isqrt(n2);
        assert(len > 0) by (nonlinear_arith)
            requires
                n >= 1,
                n2 == n * s2,
                s2 > 0,
                n2 < (len + 1) * (len + 1),
                len >= 0,
        ;
        len as i128
    }

    /// The direction of `self` as a fixed-point vector of length one
    /// (within rounding); the zero vector is returned unchanged.
    pub fn unit(&self) -> (r: Vec3)
        requires
            self.bounded(UNIT_BOUND as int),
        ensures
            r == self.unit_spec(),
            r.bounded(SCALE as int),
    {
        proof {
            lemma_unit_bounded(*self);
            lemma_scaled_squares(*self);
        }
        if self.x == 0 && self.y == 0 && self.z == 0 {
            return *self;
        }
        let len = self.fixed_length();
        let s2: i128 = 1_000_000_000_000;
        assert(s2 == SCALE * SCALE) by (nonlinear_arith)
            requires s2 == 1_000_000_000_000int, SCALE == 1_000_000int;
        let ghost b = UNIT_BOUND as int;
        proof {
            lemma_mul_bound(self.x as int, SCALE * SCALE, b * SCALE * SCALE);
            lemma_mul_bound(self.y as int, SCALE * SCALE, b * SCALE * SCALE);
            lemma_mul_bound(self.z as int, SCALE * SCALE, b * SCALE * SCALE);
        }
        let x = (self.x as i128) * s2 / len;
        let y = (self.y as i128) * s2 / len;
        let z = (self.z as i128) * s2 / len;
        Vec3 { x: x as i64, y: y as i64, z: z as i64 }
    }

    /// Mirror image of `self` about `axis`; see `lemma_mirror_law`.
    pub fn reflect(&self, axis: &Vec3) -> (r: Vec3)
        requires
            self.bounded(LIMIT as int),
            is_axis(*axis),
        ensures
            r == self.reflect_spec(*axis),
            r.bounded(13 * LIMIT),
            self.bounded(SCALE as int) ==> r.bounded(13 * SCALE),
    {
        proof {
            lemma_reflect_bound(*self, *axis, LIMIT as int);
            if self.bounded(SCALE as int) {
                lemma_reflect_bound(*self, *axis, SCALE as int);
            }
        }
        let ghost s = SCALE as int;
        let ghost l = LIMIT as int;
        let d = self.dot(axis);
        proof {
            lemma_mul_bound(self.x as int, axis.x as int, l);
            lemma_mul_bound(self.y as int, axis.y as int, l);
            lemma_mul_bound(self.z as int, axis.z as int, l);
        }
        let c = -2 * d;
        let nn = axis.dot(axis);
        proof {
            assert(nn > 0) by (nonlinear_arith) requires 2 * nn >= s * s, s > 0;
            lemma_mul_bound(axis.x as int, axis.x as int, s);
            lemma_mul_bound(axis.y as int, axis.y as int, s);
            lemma_mul_bound(axis.z as int, axis.z as int, s);
            assert(-(6 * l * l * s) <= c * axis.x <= 6 * l * l * s) by (nonlinear_arith)
                requires -(6 * l * l) <= c <= 6 * l * l, -s <= axis.x <= s, s > 0, l > 0;
            assert(-(6 * l * l * s) <= c * axis.y <= 6 * l * l * s) by (nonlinear_arith)
                requires -(6 * l * l) <= c <= 6 * l * l, -s <= axis.y <= s, s > 0, l > 0;
            assert(-(6 * l * l * s) <= c * axis.z <= 6 * l * l * s) by (nonlinear_arith)
                requires -(6 * l * l) <= c <= 6 * l * l, -s <= axis.z <= s, s > 0, l > 0;
        }
        let mx = away_div_exec(c * (axis.x as i128), nn);
        let my = away_div_exec(c * (axis.y as i128), nn);
        let mz = away_div_exec(c * (axis.z as i128), nn);
        Vec3 { x: self.x + mx as i64, y: self.y + my as i64, z: self.z + mz as i64 }
    }

    /// The direction of `self` with fixed-point length one (within rounding),
    /// each component rounded away from the side `n` points to, so that a
    /// direction pointing against `n` keeps doing so.
    pub fn unit_against(&self, n: &Vec3) -> (r: Vec3)
        requires
            self.bounded(UNIT_BOUND as int),
        ensures
            r == self.unit_against_spec(*n),
            r.bounded(SCALE as int),
            self.dot_spec(*n) < 0 ==> r.dot_spec(*n) < 0,
    {
        proof {
            lemma_unit_against(*self, *n);
            lemma_scaled_squares(*self);
        }
        if self.x == 0 && self.y == 0 && self.z == 0 {
            return *self;
        }
        let len = self.fixed_length();
        let s2: i128 = 1_000_000_000_000;
        assert(s2 == SCALE * SCALE) by (nonlinear_arith)
            requires s2 == 1_000_000_000_000int, SCALE == 1_000_000int;
        let ghost b = UNIT_BOUND as int;
        proof {
            lemma_mul_bound(self.x as int, SCALE * SCALE, b * SCALE * SCALE);
            lemma_mul_bound(self.y as int, SCALE * SCALE, b * SCALE * SCALE);
            lemma_mul_bound(self.z as int, SCALE * SCALE, b * SCALE * SCALE);
        }
        let x = against_div_exec((self.x as i128) * s2, len, n.x);
        let y = against_div_exec((self.y as i128) * s2, len, n.y);
        let z = against_div_exec((self.z as i128) * s2, len, n.z);
        Vec3 { x: x as i64, y: y as i64, z: z as i64 }
    }
}

/// `away_div` on machine integers.
fn away_div_exec(a: i128, b: i128) -> (r: i128)
    requires
        b > 0,
        -0x2000_0000_0000_0000_0000_0000_0000_0000 <= a <= 0x2000_0000_0000_0000_0000_0000_0000_0000,
        b <= 0x2000_0000_0000_0000_0000_0000_0000_0000,
    ensures
        r == away_div(a as int, b as int),
{
    if a >= 0 {
        ceil_div_exec(a, b)
    } else {
        floor_div_exec(a, b)
    }
}

/// `against_div` on machine integers.
fn against_div_exec(a: i128, b: i128, s: i64) -> (r: i128)
    requires
        b > 0,
        -0x2000_0000_0000_0000_0000_0000_0000_0000 <= a <= 0x2000_0000_0000_0000_0000_0000_0000_0000,
        b <= 0x2000_0000_0000_0000_0000_0000_0000_0000,
    ensures
        r == against_div(a as int, b as int, s as int),
{
    if s > 0 {
        floor_div_exec(a, b)
    } else {
        ceil_div_exec(a, b)
    }
}

impl Default for Vec3 {
    /// The zero vector.
    fn default() -> (r: Vec3)
        ensures
            r == (Vec3 { x: 0, y: 0, z: 0 }),
    {
        Vec3 { x: 0, y: 0, z: 0 }
    }
}

} // verus!
