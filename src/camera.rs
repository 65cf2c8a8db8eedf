//! A pinhole camera mapping screen coordinates to rays.
use vstd::prelude::*;
use crate::fixed::{fmul, lemma_tdiv_bound, SCALE, LIMIT};
use crate::error::RenderError;
use crate::ray::Ray;
use crate::vec3::Vec3;

verus! {

/// Bound on the coordinates of the camera's position and target.
pub const CAMERA_REACH: i64 = 536_870_912;

#[derive(Clone, Copy, Debug, PartialEq, Eq, Structural)]
pub struct Camera {
    pub origin: Vec3,
    pub lower_left_corner: Vec3,
    pub horizontal: Vec3,
    pub vertical: Vec3,
}

/// The unit vector from the target back to the camera.
pub open spec fn camera_w(look_from: Vec3, look_at: Vec3) -> Vec3 {
    look_from.sub_spec(look_at).unit_spec()
}

/// The unit vector pointing right on the screen.
pub open spec fn camera_u(vup: Vec3, w: Vec3) -> Vec3 {
    vup.unit_spec().cross_spec(w).unit_spec()
}

/// The vector pointing up on the screen: `w x u`.
pub open spec fn camera_v(w: Vec3, u: Vec3) -> Vec3 {
    w.cross_spec(u).div_spec(SCALE as int)
}

/// The camera looking from `look_from` at `look_at`, `vup` giving the up
/// direction, with a viewport `2 * half_height` high (at distance one) and
/// `aspect_ratio` times as wide.
pub open spec fn camera_spec(look_from: Vec3, look_at: Vec3, vup: Vec3, half_height: int, aspect_ratio: int) -> Camera {
    let w = camera_w(look_from, look_at);
    let u = camera_u(vup, w);
    let v = camera_v(w, u);
    let height = 2 * half_height;
    let width = fmul(aspect_ratio, height);
    let horizontal = u.scaled_spec(width);
    let vertical = v.scaled_spec(height);
    Camera {
        origin: look_from,
        lower_left_corner: look_from.sub_spec(horizontal.div_spec(2)).sub_spec(vertical.div_spec(2)).sub_spec(w),
        horizontal,
        vertical,
    }
}

/// `|a * b| <= m * n` for `|a| <= m` and `|b| <= n`.
proof fn lemma_mul_within(a: int, b: int, m: int, n: int)
    requires
        -m <= a <= m,
        -n <= b <= n,
    ensures
        -(m * n) <= a * b <= m * n,
{
    assert(-(m * n) <= a * b <= m * n) by (nonlinear_arith)
        requires
            -m <= a <= m,
            -n <= b <= n,
    ;
}

/// No basis can be built: the camera looks at its own position, the up
/// vector is zero, or it is parallel to the view direction (within rounding).
pub open spec fn camera_degenerate(look_from: Vec3, look_at: Vec3, vup: Vec3) -> bool {
    vup.unit_spec().cross_spec(camera_w(look_from, look_at)).is_zero()
}

/// The camera's orthonormal basis: `w` backward, `u` right, `v` up; `None`
/// when it is degenerate.
fn camera_basis(look_from: Vec3, look_at: Vec3, vup: Vec3) -> (r: Option<(Vec3, Vec3, Vec3)>)
    requires
        look_from.bounded(CAMERA_REACH as int),
        look_at.bounded(CAMERA_REACH as int),
        vup.bounded(LIMIT as int),
    ensures
        r is None <==> camera_degenerate(look_from, look_at, vup),
        r matches Some(r) ==> r.0 == camera_w(look_from, look_at) &&
        r.1 == camera_u(vup, r.0) &&
        r.2 == camera_v(r.0, r.1) &&
        r.0.bounded(SCALE as int) &&
        r.1.bounded(SCALE as int) &&
        r.2.bounded(2 * SCALE),
{
    let ghost s = SCALE as int;
    let w = look_from.sub(look_at).unit();
    let up = vup.unit();
    proof {
        lemma_mul_within(up.y as int, w.z as int, s, s);
        lemma_mul_within(up.z as int, w.y as int, s, s);
        lemma_mul_within(up.z as int, w.x as int, s, s);
        lemma_mul_within(up.x as int, w.z as int, s, s);
        lemma_mul_within(up.x as int, w.y as int, s, s);
        lemma_mul_within(up.y as int, w.x as int, s, s);
    }
    let side = up.cross(&w);
    if side.x == 0 && side.y == 0 && side.z == 0 {
        return None;
    }
    let (w, u, v) = camera_frame(w, side);
    Some((w, u, v))
}

/// Completes the basis from `w` and the side vector `vup x w`.
fn camera_frame(w: Vec3, side: Vec3) -> (r: (Vec3, Vec3, Vec3))
    requires
        w.bounded(SCALE as int),
        side.bounded(2 * SCALE * SCALE),
    ensures
        r.0 == w,
        r.1 == side.unit_spec(),
        r.2 == camera_v(w, r.1),
        r.0.bounded(SCALE as int),
        r.1.bounded(SCALE as int),
        r.2.bounded(2 * SCALE),
{
    let ghost s = SCALE as int;
    let u = side.unit();
    proof {
        lemma_mul_within(w.y as int, u.z as int, s, s);
        lemma_mul_within(w.z as int, u.y as int, s, s);
        lemma_mul_within(w.z as int, u.x as int, s, s);
        lemma_mul_within(w.x as int, u.z as int, s, s);
        lemma_mul_within(w.x as int, u.y as int, s, s);
        lemma_mul_within(w.y as int, u.x as int, s, s);
    }
    let c = w.cross(&u);
    proof {
        lemma_tdiv_bound(c.x as int, s, 2 * s);
        lemma_tdiv_bound(c.y as int, s, 2 * s);
        lemma_tdiv_bound(c.z as int, s, 2 * s);
    }
    let v = c.div(SCALE);
    (w, u, v)
}

/// The screen's horizontal and vertical spans.
fn camera_spans(u: Vec3, v: Vec3, half_height: i64, aspect_ratio: i64) -> (r: (Vec3, Vec3))
    requires
        u.bounded(SCALE as int),
        v.bounded(2 * SCALE),
        0 < half_height <= 16 * SCALE,
        0 < aspect_ratio <= 8 * SCALE,
    ensures
        r.0 == u.scaled_spec(fmul(aspect_ratio as int, 2 * half_height)),
        r.1 == v.scaled_spec(2 * half_height),
        r.0.bounded(256 * SCALE),
        r.1.bounded(64 * SCALE),
{
    let ghost s = SCALE as int;
    let height = 2 * half_height;
    proof {
        lemma_mul_within(aspect_ratio as int, height as int, 8 * s, 32 * s);
        assert((8 * s) * (32 * s) == (256 * s) * s) by (nonlinear_arith);
        lemma_tdiv_bound(aspect_ratio * height, s, 256 * s);
    }
    let width = ((aspect_ratio as i128) * (height as i128) / (SCALE as i128)) as i64;
    proof {
        lemma_mul_within(u.x as int, width as int, s, 256 * s);
        lemma_mul_within(u.y as int, width as int, s, 256 * s);
        lemma_mul_within(u.z as int, width as int, s, 256 * s);
        assert(s * (256 * s) == (256 * s) * s) by (nonlinear_arith);
        lemma_tdiv_bound(u.x * width, s, 256 * s);
        lemma_tdiv_bound(u.y * width, s, 256 * s);
        lemma_tdiv_bound(u.z * width, s, 256 * s);
        lemma_mul_within(v.x as int, height as int, 2 * s, 32 * s);
        lemma_mul_within(v.y as int, height as int, 2 * s, 32 * s);
        lemma_mul_within(v.z as int, height as int, 2 * s, 32 * s);
        assert((2 * s) * (32 * s) == (64 * s) * s) by (nonlinear_arith);
        lemma_tdiv_bound(v.x * height, s, 64 * s);
        lemma_tdiv_bound(v.y * height, s, 64 * s);
        lemma_tdiv_bound(v.z * height, s, 64 * s);
    }
    (u.scaled(width), v.scaled(height))
}

impl Camera {
    /// The camera sits in the representable volume and its screen spans are
    /// small enough for every ray of `get_ray` to be representable.
    pub open spec fn wf(self) -> bool {
        &&& self.origin.bounded(CAMERA_REACH as int)
        &&& self.horizontal.bounded(256 * SCALE)
        &&& self.vertical.bounded(64 * SCALE)
        &&& self.lower_left_corner.sub_spec(self.origin).bounded(161 * SCALE)
        &&& self.lower_left_corner.bounded(LIMIT as int)
    }

    pub open spec fn ray_dir_spec(self, u: int, v: int) -> Vec3 {
        self.lower_left_corner.add_spec(self.horizontal.scaled_spec(u)).add_spec(
            self.vertical.scaled_spec(v),
        ).sub_spec(self.origin)
    }

    /// The camera looking from `look_from` at `look_at`; refused with
    /// `DegenerateVector` when no basis can be built from the view direction
    /// and `vup`.
    pub fn new(look_from: Vec3, look_at: Vec3, vup: Vec3, half_height: i64, aspect_ratio: i64) -> (r: Result<Camera, RenderError>)
        requires
            look_from.bounded(CAMERA_REACH as int),
            look_at.bounded(CAMERA_REACH as int),
            vup.bounded(LIMIT as int),
            0 < half_height <= 16 * SCALE,
            0 < aspect_ratio <= 8 * SCALE,
        ensures
            camera_degenerate(look_from, look_at, vup) ==> r == Err::<Camera, RenderError>(
                RenderError::DegenerateVector,
            ),
            !camera_degenerate(look_from, look_at, vup) ==> r == Ok::<Camera, RenderError>(
                camera_spec(look_from, look_at, vup, half_height as int, aspect_ratio as int),
            ),
            look_from == look_at || vup.is_zero() ==> r is Err,
            r matches Ok(c) ==> c.wf(),
    {
        proof {
            let w = camera_w(look_from, look_at);
            let up = vup.unit_spec();
            if look_from == look_at {
                assert(look_from.sub_spec(look_at).is_zero());
                assert(w.is_zero());
                assert(up.y * w.z - up.z * w.y == 0 && up.z * w.x - up.x * w.z == 0 && up.x * w.y
                    - up.y * w.x == 0) by (nonlinear_arith)
                    requires w.x == 0, w.y == 0, w.z == 0;
            }
            if vup.is_zero() {
                assert(up.is_zero());
                assert(up.y * w.z - up.z * w.y == 0 && up.z * w.x - up.x * w.z == 0 && up.x * w.y
                    - up.y * w.x == 0) by (nonlinear_arith)
                    requires up.x == 0, up.y == 0, up.z == 0;
            }
        }
        let (w, u, v) = match camera_basis(look_from, look_at, vup) {
            None => {
                return Err(RenderError::DegenerateVector);
            },
            Some(b) => b,
        };
        let (horizontal, vertical) = camera_spans(u, v, half_height, aspect_ratio);
        let half_h = horizontal.div(2);
        let half_v = vertical.div(2);
        proof {
            let s = SCALE as int;
            lemma_tdiv_bound(horizontal.x as int, 2, 128 * s);
            lemma_tdiv_bound(horizontal.y as int, 2, 128 * s);
            lemma_tdiv_bound(horizontal.z as int, 2, 128 * s);
            lemma_tdiv_bound(vertical.x as int, 2, 32 * s);
            lemma_tdiv_bound(vertical.y as int, 2, 32 * s);
            lemma_tdiv_bound(vertical.z as int, 2, 32 * s);
        }
        let lower_left_corner = look_from.sub(half_h).sub(half_v).sub(w);
        Ok(Camera { origin: look_from, lower_left_corner, horizontal, vertical })
    }

    /// The ray from the camera through screen point `(u, v)`, given as
    /// fixed-point fractions of the screen's width and height; values up to
    /// two leave room for jitter past the last pixel.
    pub fn get_ray(&self, u: i64, v: i64) -> (r: Ray)
        requires
            self.wf(),
            0 <= u <= 2 * SCALE,
            0 <= v <= 2 * SCALE,
        ensures
            r == (Ray { origin: self.origin, dir: self.ray_dir_spec(u as int, v as int) }),
            r.wf(),
    {
        let ghost s = SCALE as int;
        proof {
            let h = self.horizontal;
            let w = self.vertical;
            lemma_mul_within(h.x as int, u as int, 256 * s, 2 * s);
            lemma_mul_within(h.y as int, u as int, 256 * s, 2 * s);
            lemma_mul_within(h.z as int, u as int, 256 * s, 2 * s);
            assert((256 * s) * (2 * s) == (512 * s) * s) by (nonlinear_arith);
            lemma_tdiv_bound(h.x * u, s, 512 * s);
            lemma_tdiv_bound(h.y * u, s, 512 * s);
            lemma_tdiv_bound(h.z * u, s, 512 * s);
            lemma_mul_within(w.x as int, v as int, 64 * s, 2 * s);
            lemma_mul_within(w.y as int, v as int, 64 * s, 2 * s);
            lemma_mul_within(w.z as int, v as int, 64 * s, 2 * s);
            assert((64 * s) * (2 * s) == (128 * s) * s) by (nonlinear_arith);
            lemma_tdiv_bound(w.x * v, s, 128 * s);
            lemma_tdiv_bound(w.y * v, s, 128 * s);
            lemma_tdiv_bound(w.z * v, s, 128 * s);
        }
        let a = self.lower_left_corner.add(self.horizontal.scaled(u));
        let b = a.add(self.vertical.scaled(v));
        Ray::new(self.origin, b.sub(self.origin))
    }
}

} // verus!
