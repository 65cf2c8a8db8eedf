use raytracer::camera::Camera;
use raytracer::error::RenderError;
use raytracer::fixed::{isqrt, SCALE};
use raytracer::material::{LambertianMaterial, Material};
use raytracer::math::clamp;
use raytracer::material::ScatterNoise;
use raytracer::random::{first_in_ball, random_scalar, sphere_point};
use raytracer::render::shade_pixel;
use raytracer::tracer::ray_color;
use raytracer::render::{color_vec_to_output, render_pixel, Rgb};
use raytracer::sphere::Sphere;
use raytracer::vec3::Vec3;
use raytracer::world::World;

const S: i64 = SCALE;

#[test]
fn clamp_limits() {
    assert_eq!(clamp(5, 10, 0), 10);
    assert_eq!(clamp(5, 0, 10), 5);
    assert_eq!(clamp(-5, 0, 10), 0);
    assert_eq!(clamp(15, 0, 10), 10);
    assert_eq!(clamp(3, 3, 3), 3);
}

#[test]
fn isqrt_rounds_down() {
    assert_eq!(isqrt(0), 0);
    assert_eq!(isqrt(15), 3);
    assert_eq!(isqrt(16), 4);
    assert_eq!(isqrt(u128::MAX), u64::MAX);
}

#[test]
fn output_gamma_clamp_and_quantize() {
    let c = Vec3::new(S, S / 4, 0);
    assert_eq!(color_vec_to_output(&c, 1), Ok(Rgb { r: 255, g: 128, b: 0 }));
    let sum = Vec3::new(4 * S, S, -S);
    assert_eq!(color_vec_to_output(&sum, 4), Ok(Rgb { r: 255, g: 128, b: 0 }));
}

#[test]
fn output_refuses_zero_samples() {
    let c = Vec3::new(S, S, S);
    assert_eq!(color_vec_to_output(&c, 0), Err(RenderError::InvalidConfiguration));
}

fn camera() -> Camera {
    Camera::new(Vec3::new(0, 0, 0), Vec3::new(0, 0, -S), Vec3::new(0, S, 0), S, 2 * S).unwrap()
}

#[test]
fn camera_refuses_degenerate_basis() {
    let here = Vec3::new(S, 2 * S, 3 * S);
    assert_eq!(Camera::new(here, here, Vec3::new(0, S, 0), S, S), Err(RenderError::DegenerateVector));
    let origin = Vec3::new(0, 0, 0);
    let down = Vec3::new(0, -S, 0);
    assert_eq!(Camera::new(origin, down, Vec3::new(0, S, 0), S, S), Err(RenderError::DegenerateVector));
    assert_eq!(Camera::new(origin, Vec3::new(0, 0, -S), Vec3::new(0, 0, 0), S, S), Err(RenderError::DegenerateVector));
}

#[test]
fn camera_center_ray_points_at_target() {
    let cam = camera();
    let r = cam.get_ray(S / 2, S / 2);
    assert_eq!(r.origin, Vec3::new(0, 0, 0));
    assert_eq!(r.dir, Vec3::new(0, 0, -S));
    let corner = cam.get_ray(0, 0);
    assert_eq!(corner.dir, Vec3::new(-2 * S, -S, -S));
}

#[test]
fn render_pixel_refuses_bad_configuration() {
    let world = World::new();
    assert_eq!(render_pixel(&camera(), &world, 0, 0, 4, 4, 0, 3), Err(RenderError::InvalidConfiguration));
    assert_eq!(render_pixel(&camera(), &world, 0, 0, 1, 4, 2, 3), Err(RenderError::InvalidConfiguration));
}

#[test]
fn render_pixel_sees_sky_and_ground() {
    let mut world = World::new();
    let ground = Material::Lambertian(LambertianMaterial::new(Vec3::new(0, 0, 0)));
    world.add_hittable(Sphere::new(Vec3::new(0, -100 * S - S / 2, -S), ground, 100 * S)).unwrap();
    // Top row, center: sky, blue channel saturated.
    let top = render_pixel(&camera(), &world, 4, 7, 9, 8, 4, 5).unwrap();
    assert_eq!(top.b, 255);
    // Bottom row looks into the black ground.
    let bottom = render_pixel(&camera(), &world, 4, 0, 9, 8, 4, 5).unwrap();
    assert_eq!(bottom, Rgb { r: 0, g: 0, b: 0 });
}

#[test]
fn random_scalar_draws_in_range() {
    let draws: Vec<i64> = (0..200).map(|_| random_scalar(-S, S)).collect();
    assert!(draws.iter().all(|d| (-S..S).contains(d)));
    assert!(draws.iter().any(|d| *d != draws[0]));
    assert_eq!(random_scalar(7, 8), 7);
}

#[test]
fn random_vectors_stay_in_ball_and_on_sphere() {
    for _ in 0..100 {
        let p = Vec3::random_in_unit_sphere();
        assert!(p.length_squared() < (S as i128) * (S as i128));
        let u = Vec3::random_unit_vector();
        let len2 = u.length_squared();
        assert!(len2 <= (S as i128) * (S as i128) + 2 * S as i128);
        assert!(len2 > (S as i128) * (S as i128) - 6 * S as i128 - 3);
        let r = Vec3::random(-3, 3);
        assert!((-3..3).contains(&r.x) && (-3..3).contains(&r.y) && (-3..3).contains(&r.z));
    }
}

#[test]
fn first_in_ball_keeps_first_inside() {
    let cands = vec![Vec3::new(S, 0, 0), Vec3::new(0, S / 2, 0), Vec3::new(1, 1, 1)];
    assert_eq!(first_in_ball(&cands), Vec3::new(0, S / 2, 0));
    let outside = vec![Vec3::new(S, 0, 0), Vec3::new(-S, -S, 0)];
    assert_eq!(first_in_ball(&outside), Vec3::new(0, 0, 0));
    assert_eq!(first_in_ball(&Vec::new()), Vec3::new(0, 0, 0));
}

#[test]
fn sphere_point_normalizes_or_points_up() {
    assert_eq!(sphere_point(&Vec3::new(0, 0, 0)), Vec3::new(0, 0, S));
    assert_eq!(sphere_point(&Vec3::new(3, 4, 0)), Vec3::new(600_000, 800_000, 0));
}

fn quiet(depth: usize) -> Vec<ScatterNoise> {
    vec![ScatterNoise { on_sphere: Vec3::new(0, S, 0), in_ball: Vec3::new(0, 0, 0) }; depth]
}

#[test]
fn shade_pixel_averages_given_draws() {
    let mut world = World::new();
    let ground = Material::Lambertian(LambertianMaterial::new(Vec3::new(S / 2, S / 2, S / 2)));
    world.add_hittable(Sphere::new(Vec3::new(0, -100 * S - S / 2, -S), ground, 100 * S)).unwrap();
    let cam = camera();
    let offsets = vec![(0, 0), (S / 2, S / 3)];
    let noise = vec![quiet(4), quiet(4)];
    let (i, j, w, h) = (3u64, 1u64, 9u64, 8u64);
    let mut sum = Vec3::new(0, 0, 0);
    for (k, (x, y)) in offsets.iter().enumerate() {
        let u = (i as i64 * S + x) / (w as i64 - 1);
        let v = (j as i64 * S + y) / (h as i64 - 1);
        sum = sum.add(ray_color(&cam.get_ray(u, v), &world, 4, &noise[k]));
    }
    let expected = color_vec_to_output(&sum, 2);
    assert_eq!(shade_pixel(&cam, &world, i, j, w, h, 4, &offsets, &noise), expected);
    assert!(expected.is_ok());
    assert_eq!(shade_pixel(&cam, &world, i, j, w, h, 4, &Vec::new(), &Vec::new()), Err(RenderError::InvalidConfiguration));
}
