//! The depth-bounded radiance estimator.
use vstd::prelude::*;
use crate::fixed::{tdiv, fmul, lemma_tdiv_bound, lemma_tdiv_nonneg, lemma_fmul_attenuates, SCALE};
use crate::material::{ScatterNoise, is_color, lemma_scatter_props, scatter_ready};
use crate::ray::Ray;
use crate::sphere::{Sphere, sphere_hit_spec, lemma_sphere_hit_props, lemma_hit_normal};
use crate::vec3::{Vec3, lemma_unit_bounded};
use crate::world::{World, nearest_hit, lemma_nearest_hit};

verus! {

/// Near end of every scene query (0.001): hits closer to the ray's origin
/// are taken for the surface the ray has just left.
pub const EPSILON: i64 = 1_000;

/// Far end of every scene query, standing for infinity.
pub const T_FAR: i64 = 9_223_372_036_854_775_807;

pub open spec fn black() -> Vec3 {
    Vec3 { x: 0, y: 0, z: 0 }
}

pub open spec fn white() -> Vec3 {
    Vec3 { x: SCALE, y: SCALE, z: SCALE }
}

/// The color seen looking straight up: (0.5, 0.7, 1.0).
pub open spec fn sky() -> Vec3 {
    Vec3 { x: 500_000, y: 700_000, z: 1_000_000 }
}

/// How far up the ray looks: 0 straight down, `SCALE` straight up.
pub open spec fn gradient_t(ray: Ray) -> int {
    tdiv(ray.dir.unit_spec().y + SCALE, 2)
}

/// The background: white blended toward the sky color as the ray looks up.
pub open spec fn background_spec(ray: Ray) -> Vec3 {
    white().scaled_spec(SCALE - gradient_t(ray)).add_spec(sky().scaled_spec(gradient_t(ray)))
}

/// The radiance carried back along `ray` with `depth` bounces left, the
/// bounce with `k` left drawing on `noise[k - 1]`.
pub open spec fn ray_color_spec(ray: Ray, spheres: Seq<Sphere>, depth: nat, noise: Seq<ScatterNoise>) -> Vec3
    decreases depth,
{
    if depth == 0 {
        black()
    } else {
        match nearest_hit(spheres, ray, EPSILON as int, T_FAR as int) {
            None => background_spec(ray),
            Some(h) => match h.material.scatter_spec(ray, h, noise[depth - 1]) {
                None => black(),
                Some(sr) => sr.attenuation.mul_elem_spec(
                    ray_color_spec(sr.scattered_ray, spheres, (depth - 1) as nat, noise),
                ),
            },
        }
    }
}

/// The inputs on which the estimator is defined.
pub open spec fn trace_ready(ray: Ray, spheres: Seq<Sphere>, depth: nat, noise: Seq<ScatterNoise>) -> bool {
    &&& ray.wf()
    &&& forall|i: int| 0 <= i < spheres.len() ==> (#[trigger] spheres[i]).wf()
    &&& depth <= noise.len()
    &&& forall|i: int| 0 <= i < noise.len() ==> (#[trigger] noise[i]).wf()
}

/// The background is a color.
pub proof fn lemma_background_is_color(ray: Ray)
    ensures
        0 <= gradient_t(ray) <= SCALE,
        is_color(background_spec(ray)),
{
    let s = SCALE as int;
    lemma_unit_bounded(ray.dir);
    let t = gradient_t(ray);
    lemma_tdiv_nonneg(ray.dir.unit_spec().y + s, 2);
    lemma_tdiv_bound(ray.dir.unit_spec().y + s, 2, s);
    assert(s * (s - t) == (s - t) * s) by (nonlinear_arith);
    vstd::arithmetic::div_mod::lemma_div_by_multiple(s - t, s);
    assert(fmul(s, s - t) == s - t);
    lemma_fmul_attenuates(500_000, t);
    lemma_fmul_attenuates(700_000, t);
    lemma_fmul_attenuates(s, t);
}

/// The nearest hit of a well-formed scene can be scattered.
pub proof fn lemma_scene_hit_ready(spheres: Seq<Sphere>, ray: Ray, noise: ScatterNoise)
    requires
        forall|i: int| 0 <= i < spheres.len() ==> (#[trigger] spheres[i]).wf(),
        ray.wf(),
        noise.wf(),
    ensures
        nearest_hit(spheres, ray, EPSILON as int, T_FAR as int) matches Some(h) ==> h.material.wf()
            && scatter_ready(ray, h, noise),
{
    assert forall|i: int| 0 <= i < spheres.len() implies (#[trigger] spheres[i]).geometry_wf() by {
        assert(spheres[i].wf());
    }
    lemma_nearest_hit(spheres, ray, EPSILON, T_FAR);
    if let Some(h) = nearest_hit(spheres, ray, EPSILON as int, T_FAR as int) {
        let j = choose|j: int|
            0 <= j < spheres.len() && sphere_hit_spec(
                #[trigger] spheres[j],
                ray,
                EPSILON as int,
                T_FAR as int,
            ) == Some(h);
        assert(spheres[j].wf());
        lemma_sphere_hit_props(spheres[j], ray, EPSILON, T_FAR);
        lemma_hit_normal(spheres[j], ray, EPSILON, T_FAR);
    }
}

/// Every estimate is a color: each channel lies in `[0, 1]`.
pub proof fn lemma_ray_color_is_color(ray: Ray, spheres: Seq<Sphere>, depth: nat, noise: Seq<ScatterNoise>)
    requires
        trace_ready(ray, spheres, depth, noise),
    ensures
        is_color(ray_color_spec(ray, spheres, depth, noise)),
    decreases depth,
{
    if depth > 0 {
        lemma_background_is_color(ray);
        let nz = noise[depth - 1];
        lemma_scene_hit_ready(spheres, ray, nz);
        if let Some(h) = nearest_hit(spheres, ray, EPSILON as int, T_FAR as int) {
            lemma_scatter_props(h.material, ray, h, nz);
            if let Some(sr) = h.material.scatter_spec(ray, h, nz) {
                lemma_ray_color_is_color(sr.scattered_ray, spheres, (depth - 1) as nat, noise);
                let c = ray_color_spec(sr.scattered_ray, spheres, (depth - 1) as nat, noise);
                lemma_fmul_attenuates(sr.attenuation.x as int, c.x as int);
                lemma_fmul_attenuates(sr.attenuation.y as int, c.y as int);
                lemma_fmul_attenuates(sr.attenuation.z as int, c.z as int);
            }
        }
    }
}

/// With no bounce left the estimate is black, whatever the ray and the scene.
pub proof fn lemma_depth_zero_is_black(ray: Ray, spheres: Seq<Sphere>, noise: Seq<ScatterNoise>)
    ensures
        ray_color_spec(ray, spheres, 0, noise) == black(),
{
}

/// A bounce never amplifies: when the ray hits a surface that scatters it,
/// each channel of the estimate lies between zero and the same channel of
/// the estimate along the scattered ray.
pub proof fn lemma_energy_non_amplification(ray: Ray, spheres: Seq<Sphere>, depth: nat, noise: Seq<ScatterNoise>)
    requires
        trace_ready(ray, spheres, depth, noise),
        depth >= 1,
    ensures
        nearest_hit(spheres, ray, EPSILON as int, T_FAR as int) matches Some(h) ==> (
        h.material.scatter_spec(ray, h, noise[depth - 1]) matches Some(sr) ==> {
            let out = ray_color_spec(ray, spheres, depth, noise);
            let inc = ray_color_spec(sr.scattered_ray, spheres, (depth - 1) as nat, noise);
            0 <= out.x <= inc.x && 0 <= out.y <= inc.y && 0 <= out.z <= inc.z
        }),
{
    let nz = noise[depth - 1];
    lemma_scene_hit_ready(spheres, ray, nz);
    if let Some(h) = nearest_hit(spheres, ray, EPSILON as int, T_FAR as int) {
        lemma_scatter_props(h.material, ray, h, nz);
        if let Some(sr) = h.material.scatter_spec(ray, h, nz) {
            lemma_ray_color_is_color(sr.scattered_ray, spheres, (depth - 1) as nat, noise);
            let c = ray_color_spec(sr.scattered_ray, spheres, (depth - 1) as nat, noise);
            lemma_fmul_attenuates(sr.attenuation.x as int, c.x as int);
            lemma_fmul_attenuates(sr.attenuation.y as int, c.y as int);
            lemma_fmul_attenuates(sr.attenuation.z as int, c.z as int);
        }
    }
}

/// The background color seen along `ray`.
pub fn background(ray: &Ray) -> (r: Vec3)
    requires
        ray.wf(),
    ensures
        r == background_spec(*ray),
        is_color(r),
{
    proof {
        lemma_background_is_color(*ray);
    }
    let unit = ray.unit();
    let t = (unit.y + SCALE) / 2;
    let white = Vec3 { x: SCALE, y: SCALE, z: SCALE };
    let sky = Vec3 { x: 500_000, y: 700_000, z: 1_000_000 };
    white.scaled(SCALE - t).add(sky.scaled(t))
}

/// The radiance estimate along `ray` with `depth` bounces left, the random
/// choices of each bounce taken from `noise`.
pub fn ray_color(ray: &Ray, world: &World, depth: usize, noise: &Vec<ScatterNoise>) -> (r: Vec3)
    requires
        world.wf(),
        trace_ready(*ray, world@, depth as nat, noise@),
    ensures
        r == ray_color_spec(*ray, world@, depth as nat, noise@),
        is_color(r),
        depth == 0 ==> r == black(),
    decreases depth,
{
    if depth == 0 {
        return Vec3 { x: 0, y: 0, z: 0 };
    }
    let nz = &noise[depth - 1];
    proof {
        lemma_scene_hit_ready(world@, *ray, *nz);
        lemma_ray_color_is_color(*ray, world@, depth as nat, noise@);
    }
    match world.hit(ray, EPSILON, T_FAR) {
        None => background(ray),
        Some(h) => match h.material.scatter(ray, &h, nz) {
            None => Vec3 { x: 0, y: 0, z: 0 },
            Some(sr) => {
                let c = ray_color(&sr.scattered_ray, world, depth - 1, noise);
                proof {
                    lemma_fmul_attenuates(sr.attenuation.x as int, c.x as int);
                    lemma_fmul_attenuates(sr.attenuation.y as int, c.y as int);
                    lemma_fmul_attenuates(sr.attenuation.z as int, c.z as int);
                }
                sr.attenuation.mul_elem(&c)
            },
        },
    }
}

/// The radiance estimate along `ray`, drawing fresh random choices for each
/// of the `depth` bounces.
pub fn pixel_color_for_ray(ray: &Ray, world: &World, depth: usize) -> (r: Vec3)
    requires
        world.wf(),
        ray.wf(),
    ensures
        is_color(r),
        depth == 0 ==> r == black(),
        exists|noise: Seq<ScatterNoise>|
            noise.len() == depth && (forall|i: int| 0 <= i < noise.len() ==> (#[trigger] noise[i]).wf())
                && r == ray_color_spec(*ray, world@, depth as nat, noise),
{
    let mut noise: Vec<ScatterNoise> = Vec::new();
    let mut i: usize = 0;
    while i < depth
        invariant
            i <= depth,
            noise@.len() == i,
            forall|k: int| 0 <= k < noise@.len() ==> (#[trigger] noise@[k]).wf(),
        decreases depth - i,
    {
        noise.push(ScatterNoise::random());
        i += 1;
    }
    ray_color(ray, world, depth, &noise)
}

} // verus!
