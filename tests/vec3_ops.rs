use raytracer::fixed::SCALE;
use raytracer::ray::Ray;
use raytracer::vec3::Vec3;

#[test]
fn add() {
    let a = Vec3::new(1, 2, 3);
    let b = Vec3::new(3, 11, 5);
    assert_eq!(a.add(b), Vec3::new(4, 13, 8));
}

#[test]
fn sub() {
    let a = Vec3::new(5, 3, 12);
    let b = Vec3::new(2, 1, 2);
    assert_eq!(a.sub(b), Vec3::new(3, 2, 10));
}

#[test]
fn mul() {
    let a = Vec3::new(5, 3, 12);
    let scalar = 2;
    assert_eq!(a.mul(scalar), Vec3::new(10, 6, 24));
}

#[test]
fn div() {
    let a = Vec3::new(18, 8, 4);
    let scalar = 2;
    assert_eq!(a.div(scalar), Vec3::new(9, 4, 2));
}

#[test]
fn dot() {
    let a = Vec3::new(5, 8, 1);
    let b = Vec3::new(2, 1, 5);
    assert_eq!(a.dot(&b), 23);
}

#[test]
fn cross() {
    let a = Vec3::new(1, 2, 3);
    let b = Vec3::new(4, 5, 6);
    assert_eq!(a.cross(&b), Vec3::new(-3, 6, -3));
}

/// Fixed-point coordinates for whole and fractional units.
fn fx(units: f64) -> i64 {
    (units * SCALE as f64) as i64
}

fn v(x: f64, y: f64, z: f64) -> Vec3 {
    Vec3::new(fx(x), fx(y), fx(z))
}

#[test]
fn at() {
    let ray = Ray::new(v(2.0, 4.0, 6.0), v(1.0, 0.0, 0.0));
    assert_eq!(ray.at(fx(0.0)), v(2.0, 4.0, 6.0));
    assert_eq!(ray.at(fx(0.5)), v(2.5, 4.0, 6.0));
    assert_eq!(ray.at(fx(1.0)), v(3.0, 4.0, 6.0));

    let ray = Ray::new(v(2.0, 4.0, 6.0), v(0.0, 2.0, 0.0));
    assert_eq!(ray.at(fx(0.0)), v(2.0, 4.0, 6.0));
    assert_eq!(ray.at(fx(0.5)), v(2.0, 5.0, 6.0));
    assert_eq!(ray.at(fx(1.0)), v(2.0, 6.0, 6.0));

    let ray = Ray::new(v(2.0, 4.0, 6.0), v(0.0, 0.0, 3.0));
    assert_eq!(ray.at(fx(0.0)), v(2.0, 4.0, 6.0));
    assert_eq!(ray.at(fx(0.5)), v(2.0, 4.0, 7.5));
    assert_eq!(ray.at(fx(1.0)), v(2.0, 4.0, 9.0));
}

#[test]
fn neg_and_default() {
    assert_eq!(Vec3::new(1, -2, 3).neg(), Vec3::new(-1, 2, -3));
    assert_eq!(Vec3::default(), Vec3::new(0, 0, 0));
    assert_eq!(Vec3::new(7, 8, 9).x(), 7);
    assert_eq!(Vec3::new(7, 8, 9).y(), 8);
    assert_eq!(Vec3::new(7, 8, 9).z(), 9);
}

#[test]
fn div_rounds_toward_zero() {
    assert_eq!(Vec3::new(-7, 7, -1).div(2), Vec3::new(-3, 3, 0));
}

#[test]
fn length_and_length_squared() {
    let a = Vec3::new(3, 4, 12);
    assert_eq!(a.length_squared(), 169);
    assert_eq!(a.length(), 13);
    assert_eq!(Vec3::new(1, 1, 1).length(), 1);
}

#[test]
fn scaled_and_mul_elem() {
    let a = v(2.0, -4.0, 1.0);
    assert_eq!(a.scaled(fx(0.5)), v(1.0, -2.0, 0.5));
    let c = v(0.5, 0.25, 1.0);
    assert_eq!(c.mul_elem(&v(0.5, 1.0, 0.0)), v(0.25, 0.25, 0.0));
}

#[test]
fn unit_has_fixed_point_length_one() {
    assert_eq!(Vec3::new(0, 0, -5).unit(), Vec3::new(0, 0, -SCALE));
    assert_eq!(Vec3::new(3, 4, 0).unit(), Vec3::new(600_000, 800_000, 0));
    assert_eq!(Vec3::new(0, 0, 0).unit(), Vec3::new(0, 0, 0));
    let u = Vec3::new(123, -456, 789).unit();
    let len2 = u.length_squared();
    let s2 = (SCALE as i128) * (SCALE as i128);
    assert!(len2 <= s2 + 2 * SCALE as i128 && len2 > s2 - 6 * SCALE as i128 - 3);
}

#[test]
fn mirror_reflection_law() {
    let incoming = Vec3::new(1, -1, 0).unit();
    let normal = Vec3::new(0, SCALE, 0);
    let reflected = incoming.reflect(&normal);
    assert_eq!(incoming, Vec3::new(707_107, -707_107, 0));
    assert_eq!(reflected, Vec3::new(707_107, 707_107, 0));
    assert_eq!(reflected.dot(&normal), -incoming.dot(&normal));
}

#[test]
fn ray_accessors_and_unit() {
    let ray = Ray::new(v(1.0, 2.0, 3.0), Vec3::new(0, 0, -7));
    assert_eq!(ray.origin(), v(1.0, 2.0, 3.0));
    assert_eq!(ray.dir(), Vec3::new(0, 0, -7));
    assert_eq!(ray.unit(), Vec3::new(0, 0, -SCALE));
}
