//! Random samples: scalars from `rand`, and vectors in the unit ball and on
//! the unit sphere built from them.
use vstd::prelude::*;
use ::rand::Rng;
use crate::fixed::SCALE;
use crate::material::ScatterNoise;
use crate::vec3::{Vec3, WIDE, UNIT_BOUND, lemma_unit_length};

verus! {

/// Relies on rand's `thread_rng().gen_range(min, max)`: for integers it
/// returns a value in `[min, max)`, and it panics unless `min < max`.
#[verifier::external_body]
pub fn random_scalar(min: i64, max: i64) -> (r: i64)
    requires
        min < max,
    ensures
        min <= r < max,
{
    ::rand::thread_rng().gen_range(min, max)
}

/// How many candidates rejection sampling draws before it settles for the
/// center of the ball; each candidate is accepted with probability above one
/// half.
pub const BALL_ATTEMPTS: u32 = 64;

/// `SCALE * SCALE`: the squared radius of the fixed-point unit ball.
pub const BALL_RADIUS_SQUARED: i128 = 1_000_000_000_000;

/// Whether `p` lies strictly inside the fixed-point unit ball.
pub open spec fn in_unit_ball(p: Vec3) -> bool {
    p.dot_spec(p) < SCALE * SCALE
}

/// The first candidate inside the unit ball, or the center when none is.
pub open spec fn first_in_ball_spec(c: Seq<Vec3>) -> Vec3
    decreases c.len(),
{
    if c.len() == 0 {
        Vec3 { x: 0, y: 0, z: 0 }
    } else if in_unit_ball(c[0]) {
        c[0]
    } else {
        first_in_ball_spec(c.drop_first())
    }
}

/// A point on the fixed-point unit sphere from a point `p` of the ball: its
/// direction, or straight up for the center.
pub open spec fn sphere_point_spec(p: Vec3) -> Vec3 {
    if p.is_zero() {
        Vec3 { x: 0, y: 0, z: SCALE }
    } else {
        p.unit_spec()
    }
}

proof fn lemma_ball_radius()
    ensures
        BALL_RADIUS_SQUARED == SCALE * SCALE,
{
    assert(BALL_RADIUS_SQUARED == SCALE * SCALE) by (nonlinear_arith)
        requires BALL_RADIUS_SQUARED == 1_000_000_000_000int, SCALE == 1_000_000int;
}

/// Rejected candidates in front of `tail` do not change the choice.
pub proof fn lemma_first_in_ball_skips(c: Seq<Vec3>, tail: Seq<Vec3>)
    requires
        forall|i: int| 0 <= i < c.len() ==> !in_unit_ball(#[trigger] c[i]),
    ensures
        first_in_ball_spec(c + tail) == first_in_ball_spec(tail),
    decreases c.len(),
{
    if c.len() > 0 {
        assert((c + tail)[0] == c[0]);
        assert((c + tail).drop_first() =~= c.drop_first() + tail);
        assert forall|i: int| 0 <= i < c.drop_first().len() implies !in_unit_ball(
            #[trigger] c.drop_first()[i],
        ) by {
            assert(c.drop_first()[i] == c[i + 1]);
        }
        lemma_first_in_ball_skips(c.drop_first(), tail);
    } else {
        assert(c + tail =~= tail);
    }
}

/// The candidate that rejection sampling keeps: the first of `cands` inside
/// the unit ball, or the center when none is.
pub fn first_in_ball(cands: &Vec<Vec3>) -> (r: Vec3)
    requires
        forall|i: int| 0 <= i < cands@.len() ==> (#[trigger] cands@[i]).bounded(WIDE as int),
    ensures
        r == first_in_ball_spec(cands@),
{
    proof {
        lemma_ball_radius();
    }
    let mut i: usize = 0;
    while i < cands.len()
        invariant
            i <= cands@.len(),
            forall|k: int| 0 <= k < cands@.len() ==> (#[trigger] cands@[k]).bounded(WIDE as int),
            forall|k: int| 0 <= k < i ==> !in_unit_ball(#[trigger] cands@[k]),
        decreases cands@.len() - i,
    {
        let p = cands[i];
        if p.length_squared() < BALL_RADIUS_SQUARED {
            proof {
                let pre = cands@.subrange(0, i as int);
                let tail = cands@.subrange(i as int, cands@.len() as int);
                assert(cands@ =~= pre + tail);
                lemma_first_in_ball_skips(pre, tail);
                assert(tail[0] == p);
            }
            return p;
        }
        i += 1;
    }
    proof {
        lemma_first_in_ball_skips(cands@, Seq::empty());
        assert(cands@ + Seq::<Vec3>::empty() =~= cands@);
    }
    Vec3 { x: 0, y: 0, z: 0 }
}

/// The point of the unit sphere that `sphere_point_spec` assigns to `p`.
pub fn sphere_point(p: &Vec3) -> (r: Vec3)
    requires
        p.bounded(UNIT_BOUND as int),
    ensures
        r == sphere_point_spec(*p),
        r.bounded(SCALE as int),
        r.near_unit(),
{
    if p.x == 0 && p.y == 0 && p.z == 0 {
        Vec3 { x: 0, y: 0, z: SCALE }
    } else {
        proof {
            lemma_unit_length(*p);
        }
        p.unit()
    }
}

impl Vec3 {
    /// A vector whose components are drawn independently from `[min, max)`.
    pub fn random(min: i64, max: i64) -> (r: Vec3)
        requires
            min < max,
        ensures
            min <= r.x < max,
            min <= r.y < max,
            min <= r.z < max,
    {
        Vec3 { x: random_scalar(min, max), y: random_scalar(min, max), z: random_scalar(min, max) }
    }

    /// A point strictly inside the fixed-point unit ball, by rejection
    /// sampling from the enclosing cube: the first of at most
    /// `BALL_ATTEMPTS` drawn candidates that lies inside, else the center.
    pub fn random_in_unit_sphere() -> (r: Vec3)
        ensures
            in_unit_ball(r),
            r.bounded(SCALE as int),
            exists|c: Seq<Vec3>|
                c.len() <= BALL_ATTEMPTS && (forall|i: int| 0 <= i < c.len() ==> (#[trigger] c[i]).bounded(SCALE as int))
                    && r == first_in_ball_spec(c),
    {
        proof {
            lemma_ball_radius();
        }
        let ghost mut drawn: Seq<Vec3> = Seq::empty();
        let mut attempt: u32 = 0;
        while attempt < BALL_ATTEMPTS
            invariant
                attempt <= BALL_ATTEMPTS,
                drawn.len() == attempt,
                forall|i: int| 0 <= i < drawn.len() ==> (#[trigger] drawn[i]).bounded(SCALE as int),
                forall|i: int| 0 <= i < drawn.len() ==> !in_unit_ball(#[trigger] drawn[i]),
            decreases BALL_ATTEMPTS - attempt,
        {
            let p = Vec3::random(-SCALE, SCALE);
            if p.length_squared() < BALL_RADIUS_SQUARED {
                proof {
                    let c = drawn.push(p);
                    lemma_first_in_ball_skips(drawn, seq![p]);
                    assert(drawn + seq![p] =~= c);
                    assert(forall|i: int| 0 <= i < c.len() ==> (#[trigger] c[i]).bounded(SCALE as int)) by {
                        assert forall|i: int| 0 <= i < c.len() implies (#[trigger] c[i]).bounded(SCALE as int) by {
                            if i < drawn.len() {
                                assert(c[i] == drawn[i]);
                            }
                        }
                    }
                }
                return p;
            }
            proof {
                drawn = drawn.push(p);
            }
            attempt += 1;
        }
        proof {
            lemma_first_in_ball_skips(drawn, Seq::empty());
            assert(drawn + Seq::<Vec3>::empty() =~= drawn);
        }
        Vec3 { x: 0, y: 0, z: 0 }
    }

    /// A direction on the fixed-point unit sphere: a point of the unit ball,
    /// normalized (straight up when the ball yields its center).
    pub fn random_unit_vector() -> (r: Vec3)
        ensures
            r.bounded(SCALE as int),
            r.near_unit(),
            exists|c: Seq<Vec3>|
                c.len() <= BALL_ATTEMPTS && (forall|i: int| 0 <= i < c.len() ==> (#[trigger] c[i]).bounded(SCALE as int))
                    && r == sphere_point_spec(first_in_ball_spec(c)),
    {
        let p = Vec3::random_in_unit_sphere();
        sphere_point(&p)
    }
}

impl ScatterNoise {
    /// Fresh samples for one scattering event.
    pub fn random() -> (r: ScatterNoise)
        ensures
            r.wf(),
    {
        let on_sphere = Vec3::random_unit_vector();
        let in_ball = Vec3::random_in_unit_sphere();
        ScatterNoise { on_sphere, in_ball }
    }
}

} // verus!
