//! Rays `origin + t * dir`, with `t` a fixed-point parameter.
use vstd::prelude::*;
use crate::fixed::{fits, fmul, lemma_tdiv_bound, SCALE, LIMIT};
use crate::vec3::{Vec3, UNIT_BOUND};
use crate::vec3::lemma_mul_bound;
use crate::sphere::{roots, sphere_roots};

verus! {

#[derive(Clone, Copy, Debug, PartialEq, Eq, Structural)]
pub struct Ray {
    pub origin: Vec3,
    pub dir: Vec3,
}

/// One coordinate of `origin + t * dir`.
pub open spec fn at_coord(o: int, d: int, t: int) -> int {
    o + fmul(d, t)
}

impl Ray {
    /// Origin and direction lie in the representable volume.
    pub open spec fn wf(self) -> bool {
        self.origin.bounded(LIMIT as int) && self.dir.bounded(LIMIT as int)
    }

    /// Whether the point at parameter `t` lies in the representable volume.
    pub open spec fn at_in_volume(self, t: int) -> bool {
        -LIMIT <= at_coord(self.origin.x as int, self.dir.x as int, t) <= LIMIT
            && -LIMIT <= at_coord(self.origin.y as int, self.dir.y as int, t) <= LIMIT
            && -LIMIT <= at_coord(self.origin.z as int, self.dir.z as int, t) <= LIMIT
    }

    /// Whether the point at parameter `t` is representable at all.
    pub open spec fn at_fits(self, t: int) -> bool {
        fits(at_coord(self.origin.x as int, self.dir.x as int, t))
            && fits(at_coord(self.origin.y as int, self.dir.y as int, t))
            && fits(at_coord(self.origin.z as int, self.dir.z as int, t))
    }

    pub open spec fn at_spec(self, t: int) -> Vec3 {
        Vec3 {
            x: at_coord(self.origin.x as int, self.dir.x as int, t) as i64,
            y: at_coord(self.origin.y as int, self.dir.y as int, t) as i64,
            z: at_coord(self.origin.z as int, self.dir.z as int, t) as i64,
        }
    }

    pub fn new(origin: Vec3, dir: Vec3) -> (r: Ray)
        ensures
            r == (Ray { origin, dir }),
    {
        Ray { origin, dir }
    }

    pub fn origin(&self) -> (r: Vec3)
        ensures
            r == self.origin,
    {
        self.origin
    }

    pub fn dir(&self) -> (r: Vec3)
        ensures
            r == self.dir,
    {
        self.dir
    }

    /// The point `origin + t * dir`.
    pub fn at(&self, t: i64) -> (r: Vec3)
        requires
            self.at_fits(t as int),
        ensures
            r == self.at_spec(t as int),
    {
        let p = self.at_wide(t);
        Vec3 { x: p.0 as i64, y: p.1 as i64, z: p.2 as i64 }
    }

    /// The coordinates of `origin + t * dir`, computed without overflow.
    pub(crate) fn at_wide(&self, t: i64) -> (r: (i128, i128, i128))
        ensures
            r.0 == at_coord(self.origin.x as int, self.dir.x as int, t as int),
            r.1 == at_coord(self.origin.y as int, self.dir.y as int, t as int),
            r.2 == at_coord(self.origin.z as int, self.dir.z as int, t as int),
    {
        let ghost b = 0x8000_0000_0000_0000int;
        proof {
            lemma_mul_bound(self.dir.x as int, t as int, b);
            lemma_mul_bound(self.dir.y as int, t as int, b);
            lemma_mul_bound(self.dir.z as int, t as int, b);
            lemma_tdiv_bound(self.dir.x * t, SCALE as int, b * b);
            lemma_tdiv_bound(self.dir.y * t, SCALE as int, b * b);
            lemma_tdiv_bound(self.dir.z * t, SCALE as int, b * b);
        }
        let s = SCALE as i128;
        let t = t as i128;
        let x = (self.origin.x as i128) + (self.dir.x as i128) * t / s;
        let y = (self.origin.y as i128) + (self.dir.y as i128) * t / s;
        let z = (self.origin.z as i128) + (self.dir.z as i128) * t / s;
        (x, y, z)
    }

    /// The point where the ray first meets the sphere's surface (the near
    /// root, whether or not it lies ahead of the origin), when the ray meets
    /// the sphere and that point is representable.
    pub fn hit_sphere(&self, sphere_center: Vec3, sphere_radius: i64) -> (r: Option<Vec3>)
        requires
            self.wf(),
            sphere_center.bounded(LIMIT as int),
            0 <= sphere_radius <= LIMIT,
        ensures
            r == (match roots(sphere_center, sphere_radius as int, *self) {
                None => None,
                Some(rs) => if fits(rs.0) && self.at_in_volume(rs.0) {
                    Some(self.at_spec(rs.0))
                } else {
                    None
                },
            }),
    {
        match sphere_roots(&sphere_center, sphere_radius, self) {
            None => None,
            Some(rs) => {
                let near = rs.0;
                if near < i64::MIN as i128 || near > i64::MAX as i128 {
                    return None;
                }
                let q = self.at_wide(near as i64);
                let lim = LIMIT as i128;
                if -lim <= q.0 && q.0 <= lim && -lim <= q.1 && q.1 <= lim && -lim <= q.2 && q.2
                    <= lim {
                    Some(Vec3 { x: q.0 as i64, y: q.1 as i64, z: q.2 as i64 })
                } else {
                    None
                }
            },
        }
    }

    /// The direction with fixed-point length one.
    pub fn unit(&self) -> (r: Vec3)
        requires
            self.dir.bounded(UNIT_BOUND as int),
        ensures
            r == self.dir.unit_spec(),
            r.bounded(SCALE as int),
    {
        self.dir.unit()
    }
}

} // verus!
