//! The record of a successful ray/sphere intersection.
use vstd::prelude::*;
use crate::material::Material;
use crate::ray::Ray;
use crate::vec3::{Vec3, WIDE};

verus! {

#[derive(Clone, Copy, Debug, PartialEq, Eq, Structural)]
pub struct HitRecord {
    pub point: Vec3,
    /// Oriented against the incoming ray.
    pub normal: Vec3,
    pub material: Material,
    pub t: i64,
    /// Whether the outward normal already opposed the ray.
    pub front_face: bool,
}

/// The record for a hit at `point`: the outward normal is kept when it
/// opposes the ray's direction and negated otherwise.
pub open spec fn make_record(point: Vec3, outward_normal: Vec3, material: Material, t: i64, ray: Ray) -> HitRecord {
    let front_face = ray.dir.dot_spec(outward_normal) < 0;
    HitRecord {
        point,
        normal: if front_face { outward_normal } else { outward_normal.neg_spec() },
        material,
        t,
        front_face,
    }
}

/// The normal of a record built by `make_record` never points along the ray.
pub proof fn lemma_record_faces_ray(point: Vec3, outward_normal: Vec3, material: Material, t: i64, ray: Ray)
    requires
        outward_normal.bounded(WIDE as int),
    ensures
        make_record(point, outward_normal, material, t, ray).normal.dot_spec(ray.dir) <= 0,
        make_record(point, outward_normal, material, t, ray).front_face
            ==> make_record(point, outward_normal, material, t, ray).normal.dot_spec(ray.dir) < 0,
{
    let n = outward_normal;
    let d = ray.dir;
    assert(n.dot_spec(d) == d.dot_spec(n)) by (nonlinear_arith);
    assert(n.neg_spec().dot_spec(d) == -d.dot_spec(n)) by (nonlinear_arith)
        requires
            n.neg_spec().x == -n.x,
            n.neg_spec().y == -n.y,
            n.neg_spec().z == -n.z,
    ;
}

impl HitRecord {
    pub fn new(point: &Vec3, outward_normal: &Vec3, material: Material, t: i64, ray: &Ray) -> (r: HitRecord)
        requires
            outward_normal.bounded(WIDE as int),
            ray.dir.bounded(WIDE as int),
        ensures
            r == make_record(*point, *outward_normal, material, t, *ray),
            r.normal.dot_spec(ray.dir) <= 0,
    {
        proof {
            lemma_record_faces_ray(*point, *outward_normal, material, t, *ray);
        }
        let front_face = ray.dir.dot(outward_normal) < 0;
        let normal = if front_face {
            *outward_normal
        } else {
            outward_normal.neg()
        };
        HitRecord { point: *point, normal, material, t, front_face }
    }
}

} // verus!
