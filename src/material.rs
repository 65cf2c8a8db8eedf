//! Scattering policies: diffuse (Lambertian) and reflective (metal with fuzz).
use vstd::prelude::*;
use crate::fixed::{lemma_tdiv_bound, SCALE, LIMIT};
use crate::hit_record::HitRecord;
use crate::math::clamp;
use crate::ray::Ray;
use crate::vec3::{Vec3, is_axis, lemma_unit_against, lemma_reflect_bound, lemma_mirror_law};

verus! {

/// A color or albedo: every channel is a fixed-point value in `[0, 1]`.
pub open spec fn is_color(c: Vec3) -> bool {
    0 <= c.x <= SCALE && 0 <= c.y <= SCALE && 0 <= c.z <= SCALE
}

#[derive(Clone, Copy, Debug, PartialEq, Eq, Structural)]
pub struct LambertianMaterial {
    pub albedo: Vec3,
}

#[derive(Clone, Copy, Debug, PartialEq, Eq, Structural)]
pub struct MetalMaterial {
    pub albedo: Vec3,
    /// Fixed-point perturbation of the mirror direction, in `[0, 1]`.
    pub fuzz: i64,
}

#[derive(Clone, Copy, Debug, PartialEq, Eq, Structural)]
pub enum Material {
    Lambertian(LambertianMaterial),
    Metal(MetalMaterial),
}

/// What a material hands back when it scatters: the per-channel attenuation
/// and the outgoing ray.
#[derive(Clone, Copy, Debug, PartialEq, Eq, Structural)]
pub struct ScatterRecord {
    pub attenuation: Vec3,
    pub scattered_ray: Ray,
}

/// The random input of one scattering event: a point on the unit sphere
/// (diffuse) and a point inside the unit ball (fuzz).
#[derive(Clone, Copy, Debug, PartialEq, Eq, Structural)]
pub struct ScatterNoise {
    pub on_sphere: Vec3,
    pub in_ball: Vec3,
}

impl ScatterNoise {
    /// `on_sphere` has fixed-point length one (within rounding), `in_ball`
    /// lies strictly inside the unit ball; both have components in `[-1, 1]`.
    pub open spec fn wf(self) -> bool {
        &&& self.on_sphere.bounded(SCALE as int)
        &&& self.on_sphere.near_unit()
        &&& self.in_ball.bounded(SCALE as int)
        &&& self.in_ball.dot_spec(self.in_ball) < SCALE * SCALE
    }
}

/// Diffuse scattering: the albedo, and a ray from the hit point along the
/// normal plus the random unit vector. A sample exactly opposite the normal
/// gives the zero direction; such a ray meets no sphere.
pub open spec fn lambertian_scatter_spec(m: LambertianMaterial, rec: HitRecord, noise: ScatterNoise) -> ScatterRecord {
    ScatterRecord {
        attenuation: m.albedo,
        scattered_ray: Ray { origin: rec.point, dir: rec.normal.add_spec(noise.on_sphere) },
    }
}

/// The direction of a metal's outgoing ray: the unit incoming direction
/// mirrored about the normal, perturbed by `fuzz` times the point in the ball.
/// The incoming direction is normalized rounding away from the normal's side,
/// so a ray that arrives against the surface still does after rounding.
pub open spec fn metal_direction(m: MetalMaterial, ray: Ray, rec: HitRecord, noise: ScatterNoise) -> Vec3 {
    ray.dir.unit_against_spec(rec.normal).reflect_spec(rec.normal).add_spec(
        noise.in_ball.scaled_spec(m.fuzz as int),
    )
}

/// Reflective scattering: the albedo and the perturbed mirror ray, when that
/// ray leaves the surface; nothing (absorption) otherwise.
pub open spec fn metal_scatter_spec(m: MetalMaterial, ray: Ray, rec: HitRecord, noise: ScatterNoise) -> Option<ScatterRecord> {
    let dir = metal_direction(m, ray, rec, noise);
    if dir.dot_spec(rec.normal) > 0 {
        Some(ScatterRecord { attenuation: m.albedo, scattered_ray: Ray { origin: rec.point, dir } })
    } else {
        None
    }
}

/// The preconditions of scattering on a hit record.
pub open spec fn scatter_ready(ray: Ray, rec: HitRecord, noise: ScatterNoise) -> bool {
    ray.wf() && rec.normal.bounded(SCALE as int) && rec.normal.near_unit() && rec.point.bounded(
        LIMIT as int,
    ) && noise.wf()
}

/// Sizes along the metal's direction computation.
pub proof fn lemma_metal_bounds(m: MetalMaterial, ray: Ray, rec: HitRecord, noise: ScatterNoise)
    requires
        0 <= m.fuzz <= SCALE,
        scatter_ready(ray, rec, noise),
    ensures
        is_axis(rec.normal),
        ray.dir.unit_against_spec(rec.normal).bounded(SCALE as int),
        ray.dir.unit_against_spec(rec.normal).reflect_spec(rec.normal).bounded(13 * SCALE),
        noise.in_ball.scaled_fits(m.fuzz as int),
        noise.in_ball.scaled_spec(m.fuzz as int).bounded(SCALE as int),
        metal_direction(m, ray, rec, noise).bounded(14 * SCALE),
        m.fuzz == 0 && ray.dir.dot_spec(rec.normal) < 0 ==> metal_direction(m, ray, rec, noise).dot_spec(
            rec.normal,
        ) > 0,
{
    let s = SCALE as int;
    let f = m.fuzz as int;
    let b = noise.in_ball;
    let v = ray.dir.unit_against_spec(rec.normal);
    lemma_unit_against(ray.dir, rec.normal);
    lemma_reflect_bound(v, rec.normal, s);
    lemma_mirror_law(v, rec.normal);
    assert(-(s * s) <= b.x * f <= s * s) by (nonlinear_arith) requires -s <= b.x <= s, 0 <= f <= s;
    assert(-(s * s) <= b.y * f <= s * s) by (nonlinear_arith) requires -s <= b.y <= s, 0 <= f <= s;
    assert(-(s * s) <= b.z * f <= s * s) by (nonlinear_arith) requires -s <= b.z <= s, 0 <= f <= s;
    lemma_tdiv_bound(b.x * f, s, s);
    lemma_tdiv_bound(b.y * f, s, s);
    lemma_tdiv_bound(b.z * f, s, s);
    if f == 0 {
        assert(b.scaled_spec(0) == Vec3 { x: 0, y: 0, z: 0 }) by {
            assert(b.x * 0 == 0 && b.y * 0 == 0 && b.z * 0 == 0);
        }
    }
}

/// A scattered ray starts at the hit point, stays in the representable
/// volume, and is attenuated by the material's albedo.
pub proof fn lemma_scatter_props(m: Material, ray: Ray, rec: HitRecord, noise: ScatterNoise)
    requires
        m.wf(),
        scatter_ready(ray, rec, noise),
    ensures
        m.scatter_spec(ray, rec, noise) matches Some(sr) ==> sr.scattered_ray.wf()
            && sr.attenuation == m.albedo() && sr.scattered_ray.origin == rec.point,
        m is Lambertian ==> m.scatter_spec(ray, rec, noise) is Some,
{
    if let Material::Metal(mm) = m {
        lemma_metal_bounds(mm, ray, rec, noise);
    }
}

impl LambertianMaterial {
    pub fn scatter(&self, _ray: &Ray, rec: &HitRecord, noise: &ScatterNoise) -> (r: Option<ScatterRecord>)
        requires
            rec.normal.bounded(SCALE as int),
            noise.wf(),
        ensures
            r == Some(lambertian_scatter_spec(*self, *rec, *noise)),
    {
        let dir = rec.normal.add(noise.on_sphere);
        Some(ScatterRecord { attenuation: self.albedo, scattered_ray: Ray::new(rec.point, dir) })
    }
}

impl MetalMaterial {
    pub fn scatter(&self, ray: &Ray, rec: &HitRecord, noise: &ScatterNoise) -> (r: Option<ScatterRecord>)
        requires
            0 <= self.fuzz <= SCALE,
            scatter_ready(*ray, *rec, *noise),
        ensures
            r == metal_scatter_spec(*self, *ray, *rec, *noise),
            self.fuzz == 0 && ray.dir.dot_spec(rec.normal) < 0 ==> r is Some,
    {
        proof {
            lemma_metal_bounds(*self, *ray, *rec, *noise);
        }
        let v = ray.dir.unit_against(&rec.normal);
        let reflected = v.reflect(&rec.normal);
        let perturbation = noise.in_ball.scaled(self.fuzz);
        let dir = reflected.add(perturbation);
        if dir.dot(&rec.normal) > 0 {
            Some(ScatterRecord { attenuation: self.albedo, scattered_ray: Ray::new(rec.point, dir) })
        } else {
            None
        }
    }
}

impl LambertianMaterial {
    pub fn new(color: Vec3) -> (r: LambertianMaterial)
        ensures
            r.albedo == color,
    {
        LambertianMaterial { albedo: color }
    }
}

impl MetalMaterial {
    /// A metal of the given color; the fuzz is clamped to `[0, SCALE]`.
    pub fn new(color: Vec3, fuzz: i64) -> (r: MetalMaterial)
        ensures
            r.albedo == color,
            r.fuzz == (if fuzz < 0 { 0 } else if fuzz > SCALE { SCALE } else { fuzz }),
    {
        MetalMaterial { albedo: color, fuzz: clamp(fuzz, 0, SCALE) }
    }
}

impl Material {
    /// Albedo channels and fuzz lie in `[0, 1]`.
    pub open spec fn wf(self) -> bool {
        match self {
            Material::Lambertian(m) => is_color(m.albedo),
            Material::Metal(m) => is_color(m.albedo) && 0 <= m.fuzz <= SCALE,
        }
    }

    pub open spec fn scatter_spec(self, ray: Ray, rec: HitRecord, noise: ScatterNoise) -> Option<ScatterRecord> {
        match self {
            Material::Lambertian(m) => Some(lambertian_scatter_spec(m, rec, noise)),
            Material::Metal(m) => metal_scatter_spec(m, ray, rec, noise),
        }
    }

    /// Scatters `ray` at the hit `rec`, drawing on `noise` for the random
    /// directions.
    pub fn scatter(&self, ray: &Ray, rec: &HitRecord, noise: &ScatterNoise) -> (r: Option<ScatterRecord>)
        requires
            self.wf(),
            scatter_ready(*ray, *rec, *noise),
        ensures
            r == self.scatter_spec(*ray, *rec, *noise),
            r matches Some(sr) ==> sr.scattered_ray.wf() && sr.attenuation == self.albedo(),
    {
        proof {
            lemma_scatter_props(*self, *ray, *rec, *noise);
        }
        match self {
            Material::Lambertian(m) => m.scatter(ray, rec, noise),
            Material::Metal(m) => m.scatter(ray, rec, noise),
        }
    }

    pub open spec fn albedo(self) -> Vec3 {
        match self {
            Material::Lambertian(m) => m.albedo,
            Material::Metal(m) => m.albedo,
        }
    }
}

} // verus!
