//! From radiance estimates to 8-bit pixels: averaging over samples, gamma
//! correction, clamping and quantization.
use vstd::prelude::*;
use crate::camera::Camera;
use crate::error::RenderError;
use crate::fixed::{tdiv, sqrt_floor, isqrt, lemma_tdiv_bound, lemma_tdiv_nonneg, SCALE};
use crate::math::clamp;
use crate::material::ScatterNoise;
use crate::random::random_scalar;
use crate::ray::Ray;
use crate::sphere::Sphere;
use crate::tracer::{ray_color, ray_color_spec};
use crate::vec3::Vec3;
use crate::world::World;

verus! {

/// The largest channel value before quantization: 0.999.
pub const CHANNEL_MAX: i64 = 999_000;

/// Largest image side and sample count accepted by `render_pixel`.
pub const MAX_SIDE: u64 = 1_048_576;

#[derive(Clone, Copy, Debug, PartialEq, Eq, Structural)]
pub struct Rgb {
    pub r: u8,
    pub g: u8,
    pub b: u8,
}

/// One output channel: the sum `c` of `samples` estimates is averaged,
/// gamma-corrected (square root; negative values count as zero), clamped to
/// `[0, 0.999]`, scaled to `[0, 256)` and truncated.
pub open spec fn channel_spec(c: int, samples: int) -> int {
    let avg = tdiv(c, samples);
    let gamma = sqrt_floor(if avg < 0 { 0 } else { avg * SCALE });
    let clamped = if gamma > CHANNEL_MAX { CHANNEL_MAX as int } else { gamma };
    (256 * clamped) / (SCALE as int)
}

pub open spec fn rgb_spec(c: Vec3, samples: int) -> Rgb {
    Rgb {
        r: channel_spec(c.x as int, samples) as u8,
        g: channel_spec(c.y as int, samples) as u8,
        b: channel_spec(c.z as int, samples) as u8,
    }
}

fn output_channel(c: i64, samples: u64) -> (r: u8)
    requires
        samples > 0,
    ensures
        r == channel_spec(c as int, samples as int),
{
    let avg = (c as i128) / (samples as i128);
    proof {
        if c >= 0 {
            lemma_tdiv_nonneg(c as int, samples as int);
        } else {
            lemma_tdiv_nonneg(-c, samples as int);
        }
    }
    assert(avg < 0 || avg * SCALE <= 0x8000_0000_0000_0000int * SCALE) by (nonlinear_arith)
        requires
            avg <= 0x8000_0000_0000_0000int,
    ;
    let a: i128 = if avg < 0 { 0 } else { avg * (SCALE as i128) };
    let g = isqrt(a as u128);
    assert(g < 0x1_0000_0000_0000int) by (nonlinear_arith)
        requires
            g * g <= a,
            a <= 0x8000_0000_0000_0000int * SCALE,
            SCALE == 1_000_000int,
    ;
    let clamped = clamp(g as i64, 0, CHANNEL_MAX);
    let out = 256 * clamped / SCALE;
    proof {
        vstd::arithmetic::div_mod::lemma_div_is_ordered(256 * clamped, 256 * CHANNEL_MAX, SCALE as int);
        vstd::arithmetic::div_mod::lemma_div_pos_is_pos(256 * clamped, SCALE as int);
    }
    out as u8
}

/// The pixel for the sum `color` of `samples` radiance estimates.
pub fn color_vec_to_output(color: &Vec3, samples: u64) -> (r: Result<Rgb, RenderError>)
    ensures
        samples == 0 ==> r == Err::<Rgb, RenderError>(RenderError::InvalidConfiguration),
        samples > 0 ==> r == Ok::<Rgb, RenderError>(rgb_spec(*color, samples as int)),
{
    if samples == 0 {
        return Err(RenderError::InvalidConfiguration);
    }
    Ok(Rgb {
        r: output_channel(color.x, samples),
        g: output_channel(color.y, samples),
        b: output_channel(color.z, samples),
    })
}

/// A fixed-point screen coordinate within pixel `i` of `n`: `(i + x) / (n - 1)`
/// for the offset `x` in `[0, 1)`.
pub open spec fn jitter_spec(i: int, x: int, n: int) -> int {
    tdiv(i * SCALE + x, n - 1)
}

/// The ray of one sample of pixel `(i, j)`, jittered by `offset`.
pub open spec fn sample_ray(camera: Camera, i: int, j: int, width: int, height: int, offset: (i64, i64)) -> Ray {
    Ray {
        origin: camera.origin,
        dir: camera.ray_dir_spec(jitter_spec(i, offset.0 as int, width), jitter_spec(j, offset.1 as int, height)),
    }
}

/// The sum of the estimates of the first `k` samples of pixel `(i, j)`,
/// sample `m` jittered by `offsets[m]` and bouncing on `noise[m]`.
pub open spec fn sample_sum(
    camera: Camera,
    spheres: Seq<Sphere>,
    i: int,
    j: int,
    width: int,
    height: int,
    depth: nat,
    offsets: Seq<(i64, i64)>,
    noise: Seq<Vec<ScatterNoise>>,
    k: nat,
) -> Vec3
    decreases k,
{
    if k == 0 {
        Vec3 { x: 0, y: 0, z: 0 }
    } else {
        sample_sum(camera, spheres, i, j, width, height, depth, offsets, noise, (k - 1) as nat).add_spec(
            ray_color_spec(sample_ray(camera, i, j, width, height, offsets[k - 1]), spheres, depth, noise[k - 1]@),
        )
    }
}

/// The random draws of a pixel: one offset pair in `[0, 1)` and one
/// sequence of at least `depth` well-formed scatter inputs per sample.
pub open spec fn draws_ready(offsets: Seq<(i64, i64)>, noise: Seq<Vec<ScatterNoise>>, depth: nat) -> bool {
    &&& noise.len() == offsets.len()
    &&& forall|k: int| 0 <= k < offsets.len() ==> 0 <= (#[trigger] offsets[k]).0 < SCALE && 0 <= offsets[k].1 < SCALE
    &&& forall|k: int| 0 <= k < noise.len() ==> (#[trigger] noise[k]@).len() >= depth
    &&& forall|k: int, m: int| 0 <= k < noise.len() && 0 <= m < noise[k]@.len() ==> (#[trigger] noise[k]@[m]).wf()
}

/// The pixel in column `i` and row `j` (rows counted from the bottom) of a
/// `width` by `height` image, from the given draws: one jittered ray per
/// offset, each estimated with `depth` bounces, averaged and quantized.
pub fn shade_pixel(
    camera: &Camera,
    world: &World,
    i: u64,
    j: u64,
    width: u64,
    height: u64,
    depth: usize,
    offsets: &Vec<(i64, i64)>,
    noise: &Vec<Vec<ScatterNoise>>,
) -> (r: Result<Rgb, RenderError>)
    requires
        camera.wf(),
        world.wf(),
        i < width <= MAX_SIDE,
        j < height <= MAX_SIDE,
        offsets@.len() <= MAX_SIDE,
        draws_ready(offsets@, noise@, depth as nat),
    ensures
        offsets@.len() == 0 || width < 2 || height < 2 ==> r == Err::<Rgb, RenderError>(
            RenderError::InvalidConfiguration,
        ),
        offsets@.len() > 0 && width >= 2 && height >= 2 ==> r == Ok::<Rgb, RenderError>(
            rgb_spec(
                sample_sum(*camera, world@, i as int, j as int, width as int, height as int, depth as nat, offsets@, noise@, offsets@.len()),
                offsets@.len() as int,
            ),
        ),
{
    let samples = offsets.len() as u64;
    if samples == 0 || width < 2 || height < 2 {
        return Err(RenderError::InvalidConfiguration);
    }
    let mut sum = Vec3 { x: 0, y: 0, z: 0 };
    let mut k: usize = 0;
    while k < offsets.len()
        invariant
            k <= offsets@.len() <= MAX_SIDE,
            samples == offsets@.len(),
            camera.wf(),
            world.wf(),
            i < width <= MAX_SIDE,
            j < height <= MAX_SIDE,
            width >= 2,
            height >= 2,
            draws_ready(offsets@, noise@, depth as nat),
            sum == sample_sum(*camera, world@, i as int, j as int, width as int, height as int, depth as nat, offsets@, noise@, k as nat),
            0 <= sum.x <= k * SCALE,
            0 <= sum.y <= k * SCALE,
            0 <= sum.z <= k * SCALE,
        decreases offsets@.len() - k,
    {
        let off = offsets[k];
        assert(0 <= offsets@[k as int].0 < SCALE);
        let u = jitter(i, off.0, width);
        let v = jitter(j, off.1, height);
        let ray = camera.get_ray(u, v);
        let nz = &noise[k];
        proof {
            assert(noise@[k as int]@.len() >= depth);
            assert forall|m: int| 0 <= m < nz@.len() implies (#[trigger] nz@[m]).wf() by {
                assert(noise@[k as int]@[m].wf());
            }
        }
        let c = ray_color(&ray, world, depth, nz);
        assert(k * SCALE + SCALE <= MAX_SIDE * SCALE) by (nonlinear_arith)
            requires
                k < MAX_SIDE,
        ;
        sum = sum.add(c);
        assert((k + 1) * SCALE == k * SCALE + SCALE) by (nonlinear_arith);
        k += 1;
    }
    color_vec_to_output(&sum, samples)
}

/// The pixel in column `i` and row `j` (rows counted from the bottom) of a
/// `width` by `height` image: `samples` jittered rays through the pixel, each
/// estimated with `depth` bounces on freshly drawn random choices, averaged
/// and quantized.
pub fn render_pixel(
    camera: &Camera,
    world: &World,
    i: u64,
    j: u64,
    width: u64,
    height: u64,
    samples: u64,
    depth: usize,
) -> (r: Result<Rgb, RenderError>)
    requires
        camera.wf(),
        world.wf(),
        i < width <= MAX_SIDE,
        j < height <= MAX_SIDE,
        samples <= MAX_SIDE,
    ensures
        r is Err <==> samples == 0 || width < 2 || height < 2,
        r is Err ==> r == Err::<Rgb, RenderError>(RenderError::InvalidConfiguration),
        r is Ok ==> exists|offsets: Seq<(i64, i64)>, noise: Seq<Vec<ScatterNoise>>|
            offsets.len() == samples && draws_ready(offsets, noise, depth as nat) && r
                == Ok::<Rgb, RenderError>(
                rgb_spec(
                    sample_sum(*camera, world@, i as int, j as int, width as int, height as int, depth as nat, offsets, noise, samples as nat),
                    samples as int,
                ),
            ),
{
    if samples == 0 || width < 2 || height < 2 {
        return Err(RenderError::InvalidConfiguration);
    }
    let mut offsets: Vec<(i64, i64)> = Vec::new();
    let mut noise: Vec<Vec<ScatterNoise>> = Vec::new();
    let mut k: u64 = 0;
    while k < samples
        invariant
            k <= samples,
            offsets@.len() == k,
            draws_ready(offsets@, noise@, depth as nat),
        decreases samples - k,
    {
        let x = random_scalar(0, SCALE);
        let y = random_scalar(0, SCALE);
        let mut draws: Vec<ScatterNoise> = Vec::new();
        let mut m: usize = 0;
        while m < depth
            invariant
                m <= depth,
                draws@.len() == m,
                forall|q: int| 0 <= q < draws@.len() ==> (#[trigger] draws@[q]).wf(),
            decreases depth - m,
        {
            draws.push(ScatterNoise::random());
            m += 1;
        }
        let ghost old_offsets = offsets@;
        let ghost old_noise = noise@;
        offsets.push((x, y));
        noise.push(draws);
        proof {
            assert forall|q: int| 0 <= q < offsets@.len() implies 0 <= (#[trigger] offsets@[q]).0 < SCALE
                && 0 <= offsets@[q].1 < SCALE by {
                if q < old_offsets.len() {
                    assert(offsets@[q] == old_offsets[q]);
                }
            }
            assert forall|q: int| 0 <= q < noise@.len() implies (#[trigger] noise@[q]@).len() >= depth by {
                if q < old_noise.len() {
                    assert(noise@[q] == old_noise[q]);
                }
            }
            assert forall|q: int, p: int| 0 <= q < noise@.len() && 0 <= p < noise@[q]@.len() implies (
            #[trigger] noise@[q]@[p]).wf() by {
                if q < old_noise.len() {
                    assert(noise@[q] == old_noise[q]);
                }
            }
        }
        k += 1;
    }
    shade_pixel(camera, world, i, j, width, height, depth, &offsets, &noise)
}

/// The fixed-point screen coordinate `(i + x) / (n - 1)` within pixel `i`
/// of `n`, for the offset `x` in `[0, 1)`.
fn jitter(i: u64, x: i64, n: u64) -> (r: i64)
    requires
        i < n <= MAX_SIDE,
        n >= 2,
        0 <= x < SCALE,
    ensures
        r == jitter_spec(i as int, x as int, n as int),
        0 <= r <= 2 * SCALE,
{
    let num = (i as i64) * SCALE + x;
    let den = (n - 1) as i64;
    proof {
        assert(num <= (den * 2) * SCALE) by (nonlinear_arith)
            requires
                num < i * SCALE + SCALE,
                i <= den,
                den >= 1,
        ;
        assert((den * 2) * SCALE == (2 * SCALE) * den) by (nonlinear_arith);
        lemma_tdiv_bound(num as int, den as int, 2 * SCALE);
        lemma_tdiv_nonneg(num as int, den as int);
    }
    num / den
}

} // verus!
