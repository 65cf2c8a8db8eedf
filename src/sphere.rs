//! Spheres and the ray/sphere intersection.
use vstd::prelude::*;
use crate::fixed::{tdiv, sqrt_floor, isqrt, lemma_tdiv_monotone, lemma_sqrt_exists, SCALE, LIMIT};
use crate::hit_record::{HitRecord, make_record, lemma_record_faces_ray};
use crate::material::Material;
use crate::ray::Ray;
use crate::vec3::{Vec3, lemma_unit_bounded, lemma_unit_length, lemma_squares_le};

verus! {

#[derive(Clone, Copy, Debug, PartialEq, Eq, Structural)]
pub struct Sphere {
    pub center: Vec3,
    pub radius: i64,
    pub material: Material,
}

/// `a` of the quadratic `a t^2 + 2 half_b t + c = 0` whose roots are the
/// parameters at which `ray` meets the sphere.
pub open spec fn quad_a(ray: Ray) -> int {
    ray.dir.dot_spec(ray.dir)
}

pub open spec fn quad_half_b(center: Vec3, ray: Ray) -> int {
    ray.origin.sub_spec(center).dot_spec(ray.dir)
}

pub open spec fn quad_c(center: Vec3, radius: int, ray: Ray) -> int {
    ray.origin.sub_spec(center).dot_spec(ray.origin.sub_spec(center)) - radius * radius
}

pub open spec fn discriminant(center: Vec3, radius: int, ray: Ray) -> int {
    quad_half_b(center, ray) * quad_half_b(center, ray) - quad_a(ray) * quad_c(center, radius, ray)
}

/// The fixed-point parameters of the near and the far root, or `None` when
/// the ray misses the sphere (or has no direction).
pub open spec fn roots(center: Vec3, radius: int, ray: Ray) -> Option<(int, int)> {
    let a = quad_a(ray);
    let h = quad_half_b(center, ray);
    let d = discriminant(center, radius, ray);
    if a == 0 || d < 0 {
        None
    } else {
        let s = sqrt_floor(d);
        Some((tdiv(SCALE * (-h - s), a), tdiv(SCALE * (-h + s), a)))
    }
}

/// The first of `near`, `far` that lies strictly inside `(t_min, t_max)`.
pub open spec fn pick_root(near: int, far: int, t_min: int, t_max: int) -> Option<int> {
    if t_min < near && near < t_max {
        Some(near)
    } else if t_min < far && far < t_max {
        Some(far)
    } else {
        None
    }
}

/// The outward normal at the (rounded) hit point `p` of the sphere centered
/// at `c`: the unit vector from `c` to `p`. When `p` rounds onto the center,
/// which only a sphere below the fixed-point resolution allows, the normal
/// faces back along the ray.
pub open spec fn outward_normal_spec(p: Vec3, c: Vec3, ray: Ray) -> Vec3 {
    if p == c {
        ray.dir.unit_spec().neg_spec()
    } else {
        p.sub_spec(c).unit_spec()
    }
}

/// The intersection of `ray` with sphere `s` inside `(t_min, t_max)`: the
/// first root in the interval, provided its point is representable.
pub open spec fn sphere_hit_spec(s: Sphere, ray: Ray, t_min: int, t_max: int) -> Option<HitRecord> {
    match roots(s.center, s.radius as int, ray) {
        None => None,
        Some(rs) => match pick_root(rs.0, rs.1, t_min, t_max) {
            None => None,
            Some(t) => if ray.at_in_volume(t) {
                let p = ray.at_spec(t);
                Some(make_record(p, outward_normal_spec(p, s.center, ray), s.material, t as i64, ray))
            } else {
                None
            },
        },
    }
}

/// The sizes of the quadratic's coefficients, for a ray and a sphere in the
/// representable volume.
pub proof fn lemma_quadratic_bounds(center: Vec3, radius: int, ray: Ray)
    requires
        center.bounded(LIMIT as int),
        0 <= radius <= LIMIT,
        ray.wf(),
    ensures
        ray.origin.sub_spec(center).bounded(2 * LIMIT),
        0 <= quad_a(ray) <= 3 * LIMIT * LIMIT,
        -(6 * LIMIT * LIMIT) <= quad_half_b(center, ray) <= 6 * LIMIT * LIMIT,
        -(LIMIT * LIMIT) <= quad_c(center, radius, ray) <= 12 * LIMIT * LIMIT,
        -(36 * LIMIT * LIMIT * LIMIT * LIMIT) <= discriminant(center, radius, ray) <= 39 * LIMIT
            * LIMIT * LIMIT * LIMIT,
        0 <= radius * radius <= LIMIT * LIMIT,
        0 <= quad_half_b(center, ray) * quad_half_b(center, ray) <= 36 * LIMIT * LIMIT * LIMIT * LIMIT,
        -(3 * LIMIT * LIMIT * LIMIT * LIMIT) <= quad_a(ray) * quad_c(center, radius, ray) <= 36 * LIMIT
            * LIMIT * LIMIT * LIMIT,
{
    let l = LIMIT as int;
    let o = ray.origin.sub_spec(center);
    let d = ray.dir;
    assert(o.x == ray.origin.x - center.x && o.y == ray.origin.y - center.y && o.z
        == ray.origin.z - center.z);
    assert(0 <= d.x * d.x <= l * l) by (nonlinear_arith) requires -l <= d.x <= l;
    assert(0 <= d.y * d.y <= l * l) by (nonlinear_arith) requires -l <= d.y <= l;
    assert(0 <= d.z * d.z <= l * l) by (nonlinear_arith) requires -l <= d.z <= l;
    assert(-(2 * l * l) <= o.x * d.x <= 2 * l * l) by (nonlinear_arith)
        requires -2 * l <= o.x <= 2 * l, -l <= d.x <= l, l > 0;
    assert(-(2 * l * l) <= o.y * d.y <= 2 * l * l) by (nonlinear_arith)
        requires -2 * l <= o.y <= 2 * l, -l <= d.y <= l, l > 0;
    assert(-(2 * l * l) <= o.z * d.z <= 2 * l * l) by (nonlinear_arith)
        requires -2 * l <= o.z <= 2 * l, -l <= d.z <= l, l > 0;
    assert(0 <= o.x * o.x <= 4 * l * l) by (nonlinear_arith) requires -2 * l <= o.x <= 2 * l;
    assert(0 <= o.y * o.y <= 4 * l * l) by (nonlinear_arith) requires -2 * l <= o.y <= 2 * l;
    assert(0 <= o.z * o.z <= 4 * l * l) by (nonlinear_arith) requires -2 * l <= o.z <= 2 * l;
    assert(0 <= radius * radius <= l * l) by (nonlinear_arith) requires 0 <= radius <= l;
    let a = quad_a(ray);
    let h = quad_half_b(center, ray);
    let c = quad_c(center, radius, ray);
    assert(0 <= h * h <= 36 * l * l * l * l) by (nonlinear_arith)
        requires -(6 * l * l) <= h <= 6 * l * l;
    assert(-(3 * l * l * l * l) <= a * c <= 36 * l * l * l * l) by (nonlinear_arith)
        requires 0 <= a <= 3 * l * l, -(l * l) <= c <= 12 * l * l;
}

/// The near root never exceeds the far root.
pub proof fn lemma_roots_ordered(center: Vec3, radius: int, ray: Ray)
    requires
        roots(center, radius, ray) is Some,
    ensures
        roots(center, radius, ray).unwrap().0 <= roots(center, radius, ray).unwrap().1,
{
    let h = quad_half_b(center, ray);
    let d = discriminant(center, radius, ray);
    lemma_squares_le(ray.dir);
    lemma_sqrt_exists(d);
    let s = sqrt_floor(d);
    assert(SCALE * (-h - s) <= SCALE * (-h + s)) by (nonlinear_arith)
        requires s >= 0;
    lemma_tdiv_monotone(SCALE * (-h - s), SCALE * (-h + s), quad_a(ray));
}

/// The parameters of the roots, computed without overflow.
pub(crate) fn sphere_roots(center: &Vec3, radius: i64, ray: &Ray) -> (r: Option<(i128, i128)>)
    requires
        center.bounded(LIMIT as int),
        0 <= radius <= LIMIT,
        ray.wf(),
    ensures
        roots(*center, radius as int, *ray) == (match r {
            None => None,
            Some(p) => Some((p.0 as int, p.1 as int)),
        }),
{
    proof {
        lemma_quadratic_bounds(*center, radius as int, *ray);
    }
    let oc = ray.origin.sub(*center);
    let a = ray.dir.dot(&ray.dir);
    let h = oc.dot(&ray.dir);
    let c = oc.dot(&oc) - (radius as i128) * (radius as i128);
    let d = h * h - a * c;
    if a == 0 || d < 0 {
        return None;
    }
    let s = isqrt(d as u128);
    let ghost l = LIMIT as int;
    assert(s < 7 * l * l) by (nonlinear_arith)
        requires
            s * s <= d,
            d <= 39 * l * l * l * l,
            l > 0,
    ;
    let s = s as i128;
    let sc = SCALE as i128;
    let near = sc * (-h - s) / a;
    let far = sc * (-h + s) / a;
    Some((near, far))
}

impl Sphere {
    /// Center and radius lie in the representable volume; the radius is positive.
    pub open spec fn geometry_wf(self) -> bool {
        self.center.bounded(LIMIT as int) && 0 < self.radius <= LIMIT
    }

    pub open spec fn wf(self) -> bool {
        self.geometry_wf() && self.material.wf()
    }

    pub fn new(center: Vec3, material: Material, radius: i64) -> (r: Sphere)
        ensures
            r == (Sphere { center, radius, material }),
    {
        Sphere { center, radius, material }
    }

    pub fn center(&self) -> (r: Vec3)
        ensures
            r == self.center,
    {
        self.center
    }

    pub fn radius(&self) -> (r: i64)
        ensures
            r == self.radius,
    {
        self.radius
    }

    /// The intersection with `ray` inside `(t_min, t_max)`.
    pub fn hit(&self, ray: &Ray, t_min: i64, t_max: i64) -> (r: Option<HitRecord>)
        requires
            self.geometry_wf(),
            ray.wf(),
        ensures
            r == sphere_hit_spec(*self, *ray, t_min as int, t_max as int),
            r matches Some(h) ==> t_min < h.t < t_max && h.normal.dot_spec(ray.dir) <= 0
                && h.normal.bounded(SCALE as int) && h.point.bounded(LIMIT as int)
                && h.material == self.material && h.normal.near_unit(),
    {
        proof {
            lemma_sphere_hit_props(*self, *ray, t_min, t_max);
            lemma_hit_normal(*self, *ray, t_min, t_max);
        }
        let rs = sphere_roots(&self.center, self.radius, ray);
        match rs {
            None => None,
            Some(p) => {
                let near = p.0;
                let far = p.1;
                let t: i64;
                if (t_min as i128) < near && near < (t_max as i128) {
                    t = near as i64;
                } else if (t_min as i128) < far && far < (t_max as i128) {
                    t = far as i64;
                } else {
                    return None;
                }
                let q = ray.at_wide(t);
                let lim = LIMIT as i128;
                if -lim <= q.0 && q.0 <= lim && -lim <= q.1 && q.1 <= lim && -lim <= q.2 && q.2
                    <= lim {
                    let point = Vec3 { x: q.0 as i64, y: q.1 as i64, z: q.2 as i64 };
                    let outward_normal = if point == self.center {
                        ray.unit().neg()
                    } else {
                        point.sub(self.center).unit()
                    };
                    Some(HitRecord::new(&point, &outward_normal, self.material, t, ray))
                } else {
                    None
                }
            },
        }
    }
}

/// What every hit of a sphere satisfies: its parameter lies strictly inside
/// the query interval, its normal opposes the ray and has components in
/// `[-1, 1]`, its point is representable, and it carries the sphere's material.
pub proof fn lemma_sphere_hit_props(s: Sphere, ray: Ray, t_min: i64, t_max: i64)
    requires
        s.geometry_wf(),
        ray.wf(),
    ensures
        sphere_hit_spec(s, ray, t_min as int, t_max as int) matches Some(h) ==> t_min < h.t < t_max
            && h.normal.dot_spec(ray.dir) <= 0 && h.normal.bounded(SCALE as int)
            && h.point.bounded(LIMIT as int) && h.material == s.material,
{
    if let Some(rs) = roots(s.center, s.radius as int, ray) {
        if let Some(t) = pick_root(rs.0, rs.1, t_min as int, t_max as int) {
            if ray.at_in_volume(t) {
                let p = ray.at_spec(t);
                let n = outward_normal_spec(p, s.center, ray);
                lemma_unit_bounded(p.sub_spec(s.center));
                lemma_unit_bounded(ray.dir);
                lemma_record_faces_ray(p, n, s.material, t as i64, ray);
            }
        }
    }
}

/// Shrinking the far end of the interval keeps a hit that lies below the new
/// end and drops any other.
pub proof fn lemma_hit_shrink(s: Sphere, ray: Ray, t_min: i64, t_max: i64, t_max2: i64)
    requires
        t_max2 <= t_max,
    ensures
        sphere_hit_spec(s, ray, t_min as int, t_max2 as int) == (match sphere_hit_spec(
            s,
            ray,
            t_min as int,
            t_max as int,
        ) {
            Some(h) => if h.t < t_max2 {
                Some(h)
            } else {
                None
            },
            None => None,
        }),
{
    if let Some(rs) = roots(s.center, s.radius as int, ray) {
        lemma_roots_ordered(s.center, s.radius as int, ray);
    }
}

/// Asking again with the far end of the interval at or below the parameter
/// of a hit finds nothing: the interval is open.
pub proof fn lemma_round_trip(s: Sphere, ray: Ray, t_min: i64, t_max: i64, t_max2: i64)
    requires
        sphere_hit_spec(s, ray, t_min as int, t_max as int) is Some,
        t_max2 <= sphere_hit_spec(s, ray, t_min as int, t_max as int).unwrap().t,
    ensures
        sphere_hit_spec(s, ray, t_min as int, t_max2 as int) is None,
{
    let h = sphere_hit_spec(s, ray, t_min as int, t_max as int).unwrap();
    assert(h.t < t_max) by {
        let rs = roots(s.center, s.radius as int, ray).unwrap();
        let t = pick_root(rs.0, rs.1, t_min as int, t_max as int).unwrap();
    }
    lemma_hit_shrink(s, ray, t_min, t_max, t_max2);
}

/// The normal of every sphere hit opposes the ray and has fixed-point length
/// one within rounding.
pub proof fn lemma_hit_normal(s: Sphere, ray: Ray, t_min: i64, t_max: i64)
    requires
        s.geometry_wf(),
        ray.wf(),
    ensures
        sphere_hit_spec(s, ray, t_min as int, t_max as int) matches Some(h) ==> h.normal.dot_spec(ray.dir)
            <= 0 && h.normal.near_unit(),
{
    lemma_sphere_hit_props(s, ray, t_min, t_max);
    if let Some(h) = sphere_hit_spec(s, ray, t_min as int, t_max as int) {
        let p = h.point;
        let v = if p == s.center { ray.dir } else { p.sub_spec(s.center) };
        lemma_unit_bounded(v);
        if p == s.center {
            lemma_squares_le(ray.dir);
        }
        assert(!v.is_zero());
        lemma_unit_length(v);
        let n = v.unit_spec();
        let m = n.neg_spec();
        assert(m.dot_spec(m) == n.dot_spec(n)) by (nonlinear_arith)
            requires
                m.x == -n.x,
                m.y == -n.y,
                m.z == -n.z,
        ;
    }
}

} // verus!
