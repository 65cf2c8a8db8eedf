//! A scene: an ordered collection of spheres, reduced to the nearest hit.
use vstd::prelude::*;
use crate::error::RenderError;
use crate::fixed::{SCALE, LIMIT};
use crate::hit_record::HitRecord;
use crate::material::{Material, is_color};
use crate::ray::Ray;
use crate::sphere::{Sphere, sphere_hit_spec, lemma_sphere_hit_props, lemma_hit_shrink, lemma_hit_normal};

verus! {

pub struct World {
    spheres: Vec<Sphere>,
}

impl View for World {
    type V = Seq<Sphere>;

    closed spec fn view(&self) -> Seq<Sphere> {
        self.spheres@
    }
}

/// The record kept by scanning `spheres` in order, querying each with the
/// interval `(t_min, closest)`, where `closest` is the parameter of the
/// record kept so far (initially `t_max`).
pub open spec fn nearest_hit(spheres: Seq<Sphere>, ray: Ray, t_min: int, t_max: int) -> Option<HitRecord>
    decreases spheres.len(),
{
    if spheres.len() == 0 {
        None
    } else {
        let prev = nearest_hit(spheres.drop_last(), ray, t_min, t_max);
        let closest = match prev {
            Some(h) => h.t as int,
            None => t_max,
        };
        match sphere_hit_spec(spheres.last(), ray, t_min, closest) {
            Some(h) => Some(h),
            None => prev,
        }
    }
}

/// The scan finds the nearest hit: it finds nothing exactly when no sphere
/// is hit inside `(t_min, t_max)`; otherwise it returns the hit of one of
/// the spheres, and no sphere is hit at a smaller parameter.
pub proof fn lemma_nearest_hit(spheres: Seq<Sphere>, ray: Ray, t_min: i64, t_max: i64)
    requires
        forall|i: int| 0 <= i < spheres.len() ==> (#[trigger] spheres[i]).geometry_wf(),
        ray.wf(),
    ensures
        nearest_hit(spheres, ray, t_min as int, t_max as int) is None <==> forall|i: int|
            0 <= i < spheres.len() ==> sphere_hit_spec(
                #[trigger] spheres[i],
                ray,
                t_min as int,
                t_max as int,
            ) is None,
        nearest_hit(spheres, ray, t_min as int, t_max as int) matches Some(h) ==> exists|i: int|
            0 <= i < spheres.len() && sphere_hit_spec(
                #[trigger] spheres[i],
                ray,
                t_min as int,
                t_max as int,
            ) == Some(h),
        nearest_hit(spheres, ray, t_min as int, t_max as int) matches Some(h) ==> forall|i: int|
            0 <= i < spheres.len() && sphere_hit_spec(
                #[trigger] spheres[i],
                ray,
                t_min as int,
                t_max as int,
            ) is Some ==> h.t <= sphere_hit_spec(spheres[i], ray, t_min as int, t_max as int).unwrap().t,
    decreases spheres.len(),
{
    if spheres.len() > 0 {
        let pre = spheres.drop_last();
        let last = spheres.last();
        let n = spheres.len() - 1;
        assert forall|i: int| 0 <= i < pre.len() implies (#[trigger] pre[i]).geometry_wf() by {
            assert(pre[i] == spheres[i]);
        }
        lemma_nearest_hit(pre, ray, t_min, t_max);
        assert(spheres[n] == last);
        lemma_sphere_hit_props(last, ray, t_min, t_max);
        let prev = nearest_hit(pre, ray, t_min as int, t_max as int);
        match prev {
            Some(hp) => {
                let j = choose|j: int|
                    0 <= j < pre.len() && sphere_hit_spec(
                        #[trigger] pre[j],
                        ray,
                        t_min as int,
                        t_max as int,
                    ) == Some(hp);
                assert(pre[j] == spheres[j]);
                lemma_sphere_hit_props(pre[j], ray, t_min, t_max);
                lemma_hit_shrink(last, ray, t_min, t_max, hp.t);
            },
            None => {},
        }
        assert forall|i: int| 0 <= i < pre.len() implies #[trigger] spheres[i] == pre[i] by {}
    }
}

impl World {
    /// Every sphere has a positive radius, lies in the representable volume,
    /// and has a well-formed material.
    pub open spec fn wf(&self) -> bool {
        forall|i: int| 0 <= i < self@.len() ==> (#[trigger] self@[i]).wf()
    }

    pub fn new() -> (r: World)
        ensures
            r@ == Seq::<Sphere>::empty(),
            r.wf(),
    {
        World { spheres: Vec::new() }
    }

    /// Adds a sphere to the scene, refusing one with a non-positive radius or
    /// outside the representable volume, or whose material is out of range.
    pub fn add_hittable(&mut self, sphere: Sphere) -> (r: Result<(), RenderError>)
        ensures
            !sphere.geometry_wf() ==> r == Err::<(), RenderError>(RenderError::InvalidGeometry),
            sphere.geometry_wf() && !sphere.material.wf() ==> r == Err::<(), RenderError>(
                RenderError::InvalidMaterial,
            ),
            r is Ok <==> sphere.wf(),
            r is Ok ==> final(self)@ == old(self)@.push(sphere),
            r is Err ==> final(self)@ == old(self)@,
            old(self).wf() ==> final(self).wf(),
    {
        let lim = LIMIT;
        let c = sphere.center;
        if !(-lim <= c.x && c.x <= lim && -lim <= c.y && c.y <= lim && -lim <= c.z && c.z <= lim
            && 0 < sphere.radius && sphere.radius <= lim) {
            return Err(RenderError::InvalidGeometry);
        }
        let ok = match sphere.material {
            Material::Lambertian(m) => color_in_range(&m.albedo),
            Material::Metal(m) => color_in_range(&m.albedo) && 0 <= m.fuzz && m.fuzz <= SCALE,
        };
        if !ok {
            return Err(RenderError::InvalidMaterial);
        }
        self.spheres.push(sphere);
        proof {
            assert(sphere.wf());
            assert(self@ == old(self)@.push(sphere));
            if old(self).wf() {
                assert forall|i: int| 0 <= i < self@.len() implies (#[trigger] self@[i]).wf() by {
                    if i < old(self)@.len() {
                        assert(self@[i] == old(self)@[i]);
                    }
                }
            }
        }
        Ok(())
    }

    /// The nearest hit over all spheres inside `(t_min, t_max)`.
    pub fn hit(&self, ray: &Ray, t_min: i64, t_max: i64) -> (r: Option<HitRecord>)
        requires
            self.wf(),
            ray.wf(),
        ensures
            r == nearest_hit(self@, *ray, t_min as int, t_max as int),
            r is None <==> forall|i: int|
                0 <= i < self@.len() ==> sphere_hit_spec(
                    #[trigger] self@[i],
                    *ray,
                    t_min as int,
                    t_max as int,
                ) is None,
            r matches Some(h) ==> forall|i: int|
                0 <= i < self@.len() && sphere_hit_spec(
                    #[trigger] self@[i],
                    *ray,
                    t_min as int,
                    t_max as int,
                ) is Some ==> h.t <= sphere_hit_spec(self@[i], *ray, t_min as int, t_max as int).unwrap().t,
            r matches Some(h) ==> t_min < h.t < t_max && h.normal.dot_spec(ray.dir) <= 0
                && h.normal.bounded(SCALE as int) && h.point.bounded(LIMIT as int) && h.material.wf()
                && h.normal.near_unit(),
    {
        let mut closest = t_max;
        let mut rec: Option<HitRecord> = None;
        let mut i: usize = 0;
        while i < self.spheres.len()
            invariant
                0 <= i <= self.spheres@.len(),
                self.wf(),
                ray.wf(),
                rec == nearest_hit(self.spheres@.subrange(0, i as int), *ray, t_min as int, t_max as int),
                closest == (match rec {
                    Some(h) => h.t,
                    None => t_max,
                }),
            decreases self.spheres@.len() - i,
        {
            assert(self.spheres@.subrange(0, i + 1).drop_last() =~= self.spheres@.subrange(0, i as int));
            assert(self.spheres@.subrange(0, i + 1).last() == self.spheres@[i as int]);
            assert(self@[i as int].wf());
            if let Some(h) = self.spheres[i].hit(ray, t_min, closest) {
                closest = h.t;
                rec = Some(h);
            }
            i += 1;
        }
        assert(self.spheres@.subrange(0, i as int) =~= self.spheres@);
        proof {
            assert forall|k: int| 0 <= k < self@.len() implies (#[trigger] self@[k]).geometry_wf() by {
                assert(self@[k].wf());
            }
            lemma_nearest_hit(self@, *ray, t_min, t_max);
            if let Some(h) = rec {
                let j = choose|j: int|
                    0 <= j < self@.len() && sphere_hit_spec(
                        #[trigger] self@[j],
                        *ray,
                        t_min as int,
                        t_max as int,
                    ) == Some(h);
                assert(self@[j].wf());
                lemma_sphere_hit_props(self@[j], *ray, t_min, t_max);
                lemma_hit_normal(self@[j], *ray, t_min, t_max);
            }
        }
        rec
    }
}

/// Whether every channel of `c` lies in `[0, SCALE]`.
fn color_in_range(c: &crate::vec3::Vec3) -> (r: bool)
    ensures
        r == is_color(*c),
{
    0 <= c.x && c.x <= SCALE && 0 <= c.y && c.y <= SCALE && 0 <= c.z && c.z <= SCALE
}

} // verus!
