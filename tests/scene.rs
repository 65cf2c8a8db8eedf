use raytracer::error::RenderError;
use raytracer::fixed::SCALE;
use raytracer::material::{LambertianMaterial, Material, MetalMaterial, ScatterNoise};
use raytracer::ray::Ray;
use raytracer::sphere::Sphere;
use raytracer::tracer::{background, pixel_color_for_ray, ray_color, T_FAR};
use raytracer::vec3::Vec3;
use raytracer::world::World;

const S: i64 = SCALE;

fn gray() -> Material {
    Material::Lambertian(LambertianMaterial::new(Vec3::new(S / 2, S / 2, S / 2)))
}

fn unit_sphere_scenario() -> (Sphere, Ray) {
    let sphere = Sphere::new(Vec3::new(0, 0, -S), gray(), S / 2);
    let ray = Ray::new(Vec3::new(0, 0, 0), Vec3::new(0, 0, -S));
    (sphere, ray)
}

#[test]
fn sphere_hit_concrete_scenario() {
    let (sphere, ray) = unit_sphere_scenario();
    let h = sphere.hit(&ray, 0, T_FAR).expect("the ray points at the sphere");
    assert_eq!(h.t, S / 2);
    assert_eq!(h.point, Vec3::new(0, 0, -S / 2));
    assert_eq!(h.normal, Vec3::new(0, 0, S));
    assert!(h.front_face);
    assert_eq!(h.material, gray());
}

#[test]
fn sphere_hit_strict_interval_round_trip() {
    let (sphere, ray) = unit_sphere_scenario();
    let h = sphere.hit(&ray, 0, T_FAR).unwrap();
    assert!(sphere.hit(&ray, 0, h.t).is_none());
    assert!(sphere.hit(&ray, 0, h.t - 1).is_none());
    assert!(sphere.hit(&ray, 0, h.t + 1).is_some());
}

#[test]
fn sphere_hit_from_inside_takes_far_root_and_flips_normal() {
    let sphere = Sphere::new(Vec3::new(0, 0, 0), gray(), S);
    let ray = Ray::new(Vec3::new(0, 0, 0), Vec3::new(S, 0, 0));
    let h = sphere.hit(&ray, 1_000, T_FAR).unwrap();
    assert_eq!(h.t, S);
    assert_eq!(h.point, Vec3::new(S, 0, 0));
    assert_eq!(h.normal, Vec3::new(-S, 0, 0));
    assert!(!h.front_face);
    assert!(h.normal.dot(&ray.dir) <= 0);
}

#[test]
fn sphere_miss_and_interval_bounds() {
    let (sphere, _) = unit_sphere_scenario();
    let away = Ray::new(Vec3::new(0, 0, 0), Vec3::new(0, 0, S));
    assert!(sphere.hit(&away, 0, T_FAR).is_none());
    let aside = Ray::new(Vec3::new(0, 0, 0), Vec3::new(S, 0, 0));
    assert!(sphere.hit(&aside, 0, T_FAR).is_none());
    let (_, ray) = unit_sphere_scenario();
    let h = sphere.hit(&ray, S / 2 + 1, T_FAR).unwrap();
    assert_eq!(h.t, 3 * S / 2);
    assert!(h.t > S / 2 + 1 && h.t < T_FAR);
}

#[test]
fn sphere_normal_is_unit_and_opposes_ray() {
    let sphere = Sphere::new(Vec3::new(300_000, -200_000, -2 * S), gray(), 700_000);
    let ray = Ray::new(Vec3::new(0, 0, 0), Vec3::new(100_000, 50_000, -S));
    let h = sphere.hit(&ray, 0, T_FAR).unwrap();
    let len2 = h.normal.length_squared();
    let s2 = (S as i128) * (S as i128);
    assert!((len2 - s2).abs() <= 10 * S as i128);
    assert!(h.normal.dot(&ray.dir) < 0);
}

#[test]
fn sphere_accessors() {
    let s = Sphere::new(Vec3::new(1, 2, 3), gray(), 4);
    assert_eq!(s.center(), Vec3::new(1, 2, 3));
    assert_eq!(s.radius(), 4);
}

#[test]
fn ray_hit_sphere_returns_near_point() {
    let (sphere, ray) = unit_sphere_scenario();
    assert_eq!(ray.hit_sphere(sphere.center, sphere.radius), Some(Vec3::new(0, 0, -S / 2)));
    let aside = Ray::new(Vec3::new(0, 0, 0), Vec3::new(S, 0, 0));
    assert_eq!(aside.hit_sphere(sphere.center, sphere.radius), None);
}

#[test]
fn world_returns_nearest_hit() {
    let mat_a = Material::Metal(MetalMaterial::new(Vec3::new(S, 0, 0), 0));
    let mat_b = Material::Lambertian(LambertianMaterial::new(Vec3::new(0, 0, S)));
    let a = Sphere::new(Vec3::new(0, 0, -2 * S), mat_a, S / 2);
    let b = Sphere::new(Vec3::new(0, 0, -5 * S), mat_b, S / 2);
    let ray = Ray::new(Vec3::new(0, 0, 0), Vec3::new(0, 0, -S));
    for order in [[b, a], [a, b]] {
        let mut world = World::new();
        for s in order {
            assert_eq!(world.add_hittable(s), Ok(()));
        }
        let h = world.hit(&ray, 1_000, T_FAR).unwrap();
        assert_eq!(h.material, mat_a);
        assert_eq!(h.t, 3 * S / 2);
    }
}

#[test]
fn empty_world_has_no_hit() {
    let world = World::new();
    let ray = Ray::new(Vec3::new(0, 0, 0), Vec3::new(0, 0, -S));
    assert!(world.hit(&ray, 0, T_FAR).is_none());
}

#[test]
fn world_refuses_bad_spheres() {
    let mut world = World::new();
    let flat = Sphere::new(Vec3::new(0, 0, -S), gray(), 0);
    assert_eq!(world.add_hittable(flat), Err(RenderError::InvalidGeometry));
    let inverted = Sphere::new(Vec3::new(0, 0, -S), gray(), -S);
    assert_eq!(world.add_hittable(inverted), Err(RenderError::InvalidGeometry));
    let bright = Material::Lambertian(LambertianMaterial::new(Vec3::new(2 * S, 0, 0)));
    let glowing = Sphere::new(Vec3::new(0, 0, -S), bright, S / 2);
    assert_eq!(world.add_hittable(glowing), Err(RenderError::InvalidMaterial));
    let ray = Ray::new(Vec3::new(0, 0, 0), Vec3::new(0, 0, -S));
    assert!(world.hit(&ray, 0, T_FAR).is_none());
}

#[test]
fn metal_fuzz_is_clamped() {
    assert_eq!(MetalMaterial::new(Vec3::new(1, 2, 3), 5 * S).fuzz, S);
    assert_eq!(MetalMaterial::new(Vec3::new(1, 2, 3), -4).fuzz, 0);
    assert_eq!(MetalMaterial::new(Vec3::new(1, 2, 3), S / 3).fuzz, S / 3);
}

#[test]
fn background_gradient_boundary_values() {
    let up = Ray::new(Vec3::new(0, 0, 0), Vec3::new(0, S, 0));
    assert_eq!(background(&up), Vec3::new(S / 2, 7 * S / 10, S));
    let down = Ray::new(Vec3::new(0, 0, 0), Vec3::new(0, -S, 0));
    assert_eq!(background(&down), Vec3::new(S, S, S));
    let level = Ray::new(Vec3::new(0, 0, 0), Vec3::new(S, 0, 0));
    assert_eq!(background(&level), Vec3::new(3 * S / 4, 85 * S / 100, S));
}

fn quiet_noise(n: usize) -> Vec<ScatterNoise> {
    vec![ScatterNoise { on_sphere: Vec3::new(0, S, 0), in_ball: Vec3::new(0, 0, 0) }; n]
}

#[test]
fn depth_zero_is_black() {
    let (sphere, ray) = unit_sphere_scenario();
    let mut world = World::new();
    world.add_hittable(sphere).unwrap();
    assert_eq!(ray_color(&ray, &world, 0, &quiet_noise(0)), Vec3::new(0, 0, 0));
    assert_eq!(pixel_color_for_ray(&ray, &world, 0), Vec3::new(0, 0, 0));
    let up = Ray::new(Vec3::new(0, 0, 0), Vec3::new(0, S, 0));
    assert_eq!(ray_color(&up, &World::new(), 0, &quiet_noise(0)), Vec3::new(0, 0, 0));
}

#[test]
fn no_hit_gives_background() {
    let up = Ray::new(Vec3::new(0, 0, 0), Vec3::new(0, S, 0));
    assert_eq!(ray_color(&up, &World::new(), 3, &quiet_noise(3)), Vec3::new(S / 2, 7 * S / 10, S));
}

#[test]
fn mirror_bounce_attenuates() {
    // A mirror below the camera reflects a downward ray straight up into the sky.
    let albedo = Vec3::new(S / 2, S, S / 4);
    let mirror = Material::Metal(MetalMaterial::new(albedo, 0));
    let mut world = World::new();
    world.add_hittable(Sphere::new(Vec3::new(0, -2 * S, 0), mirror, S)).unwrap();
    let down = Ray::new(Vec3::new(0, 0, 0), Vec3::new(0, -S, 0));
    let noise = quiet_noise(2);
    let out = ray_color(&down, &world, 2, &noise);
    let bounced = Ray::new(Vec3::new(0, -S, 0), Vec3::new(0, S, 0));
    let inc = ray_color(&bounced, &world, 1, &noise);
    assert_eq!(inc, Vec3::new(S / 2, 7 * S / 10, S));
    assert_eq!(out, Vec3::new(S / 4, 7 * S / 10, S / 4));
    assert!(out.x <= inc.x && out.y <= inc.y && out.z <= inc.z);
    // With one bounce left, the scattered ray gets no light at all.
    assert_eq!(ray_color(&down, &world, 1, &noise), Vec3::new(0, 0, 0));
}

#[test]
fn metal_absorbs_grazing_fuzzed_ray() {
    let mirror = Material::Metal(MetalMaterial::new(Vec3::new(S, S, S), S));
    let mut world = World::new();
    world.add_hittable(Sphere::new(Vec3::new(0, -2 * S, 0), mirror, S)).unwrap();
    let down = Ray::new(Vec3::new(0, 0, 0), Vec3::new(0, -S, 0));
    // The fuzz pushes the mirrored ray back into the surface.
    let noise = vec![ScatterNoise { on_sphere: Vec3::new(0, S, 0), in_ball: Vec3::new(0, -S, 0) }; 2];
    assert_eq!(ray_color(&down, &world, 2, &noise), Vec3::new(0, 0, 0));
}

#[test]
fn diffuse_bounce_follows_normal_plus_sample() {
    let mut world = World::new();
    world.add_hittable(Sphere::new(Vec3::new(0, -2 * S, 0), gray(), S)).unwrap();
    let down = Ray::new(Vec3::new(0, 0, 0), Vec3::new(0, -S, 0));
    let out = ray_color(&down, &world, 2, &quiet_noise(2));
    // Scattered along normal (0,1,0) plus sample (0,1,0): straight up.
    assert_eq!(out, Vec3::new(S / 4, 7 * S / 20, S / 2));
}

#[test]
fn random_estimates_are_colors() {
    let mut world = World::new();
    world.add_hittable(Sphere::new(Vec3::new(0, -2 * S, 0), gray(), S)).unwrap();
    let down = Ray::new(Vec3::new(0, 0, 0), Vec3::new(0, -S, 0));
    for _ in 0..20 {
        let c = pixel_color_for_ray(&down, &world, 5);
        for ch in [c.x, c.y, c.z] {
            assert!((0..=S).contains(&ch));
        }
        assert!(c.y <= S / 2);
    }
}

#[test]
fn hit_record_orients_normal_against_ray() {
    let ray = Ray::new(Vec3::new(0, 0, 0), Vec3::new(0, 0, -S));
    let outward = Vec3::new(0, 0, S);
    let front = raytracer::hit_record::HitRecord::new(&Vec3::new(0, 0, -S), &outward, gray(), 7, &ray);
    assert!(front.front_face);
    assert_eq!(front.normal, outward);
    assert_eq!(front.t, 7);
    let inward = Vec3::new(0, 0, -S);
    let back = raytracer::hit_record::HitRecord::new(&Vec3::new(0, 0, -S), &inward, gray(), 7, &ray);
    assert!(!back.front_face);
    assert_eq!(back.normal, Vec3::new(0, 0, S));
}

#[test]
fn materials_scatter_as_described() {
    let (sphere, ray) = unit_sphere_scenario();
    let h = sphere.hit(&ray, 0, T_FAR).unwrap();
    let noise = ScatterNoise { on_sphere: Vec3::new(S, 0, 0), in_ball: Vec3::new(0, S / 2, 0) };
    let diffuse = LambertianMaterial::new(Vec3::new(S, S / 2, 0));
    let sr = diffuse.scatter(&ray, &h, &noise).unwrap();
    assert_eq!(sr.attenuation, Vec3::new(S, S / 2, 0));
    assert_eq!(sr.scattered_ray, Ray::new(Vec3::new(0, 0, -S / 2), Vec3::new(S, 0, S)));
    let metal = MetalMaterial::new(Vec3::new(S, S, S), S / 2);
    let sr = metal.scatter(&ray, &h, &noise).unwrap();
    assert_eq!(sr.scattered_ray, Ray::new(Vec3::new(0, 0, -S / 2), Vec3::new(0, S / 4, S)));
    let via_enum = Material::Metal(metal).scatter(&ray, &h, &noise);
    assert_eq!(via_enum, Some(sr));
}

#[test]
fn fresh_noise_is_in_range() {
    for _ in 0..50 {
        let n = ScatterNoise::random();
        for c in [n.on_sphere.x, n.on_sphere.y, n.on_sphere.z, n.in_ball.x, n.in_ball.y, n.in_ball.z] {
            assert!((-S..=S).contains(&c));
        }
    }
}

#[test]
fn normal_is_unit_when_point_rounds_onto_center() {
    let tiny = Sphere::new(Vec3::new(0, 0, 0), gray(), 1);
    let ray = Ray::new(Vec3::new(0, 0, 0), Vec3::new(7 * S, 0, 0));
    let h = tiny.hit(&ray, -1, T_FAR).unwrap();
    assert_eq!(h.point, tiny.center);
    assert_eq!(h.normal, Vec3::new(-S, 0, 0));
    assert!(h.front_face);
}

#[test]
fn perfect_mirror_reflects_grazing_ray() {
    let normal = Vec3::new(0, S, 0);
    let ray = Ray::new(Vec3::new(0, S, 0), Vec3::new(10 * S, -1, 0));
    let rec = raytracer::hit_record::HitRecord::new(&Vec3::new(0, 0, 0), &normal, gray(), 5, &ray);
    let mirror = MetalMaterial::new(Vec3::new(S, S, S), 0);
    let noise = ScatterNoise { on_sphere: Vec3::new(0, S, 0), in_ball: Vec3::new(0, 0, 0) };
    let sr = mirror.scatter(&ray, &rec, &noise).expect("a perfect mirror never absorbs a front-face ray");
    assert!(sr.scattered_ray.dir.dot(&normal) > 0);
    assert_eq!(ray.dir.unit_against(&normal), Vec3::new(S, -1, 0));
    assert_eq!(sr.scattered_ray.dir, Vec3::new(S, 1, 0));
}
