//! Fixed-point scalars: an integer `s` stands for the real number `s / SCALE`.
use vstd::prelude::*;
use vstd::arithmetic::div_mod::{lemma_div_is_ordered, lemma_div_by_multiple, lemma_div_pos_is_pos};

verus! {

/// The fixed-point representation of one.
pub const SCALE: i64 = 1_000_000;

/// Bound on the magnitude of every coordinate of a ray and of a sphere.
pub const LIMIT: i64 = 1_073_741_824;

/// Whether `x` is representable as an `i64`.
pub open spec fn fits(x: int) -> bool {
    i64::MIN <= x <= i64::MAX
}

/// Integer division rounding toward zero, as Rust's `/` does.
pub open spec fn tdiv(a: int, b: int) -> int {
    if a >= 0 {
        a / b
    } else {
        -((-a) / b)
    }
}

/// Product of two fixed-point scalars, rounded toward zero.
pub open spec fn fmul(a: int, b: int) -> int {
    tdiv(a * b, SCALE as int)
}

/// `r` is the integer square root of `n`.
pub open spec fn is_sqrt(n: int, r: int) -> bool {
    0 <= r && r * r <= n && n < (r + 1) * (r + 1)
}

/// The integer square root of `n` (meaningful for `n >= 0`).
pub open spec fn sqrt_floor(n: int) -> int {
    choose|r: int| is_sqrt(n, r)
}

/// There is at most one integer square root.
pub proof fn lemma_sqrt_unique(n: int, r1: int, r2: int)
    requires
        is_sqrt(n, r1),
        is_sqrt(n, r2),
    ensures
        r1 == r2,
{
    if r1 < r2 {
        assert((r1 + 1) * (r1 + 1) <= r2 * r2) by (nonlinear_arith)
            requires
                0 <= r1,
                r1 + 1 <= r2,
        ;
    }
    if r2 < r1 {
        assert((r2 + 1) * (r2 + 1) <= r1 * r1) by (nonlinear_arith)
            requires
                0 <= r2,
                r2 + 1 <= r1,
        ;
    }
}

/// A value with an integer square root is mapped to it by `sqrt_floor`.
pub proof fn lemma_sqrt_floor(n: int, r: int)
    requires
        is_sqrt(n, r),
    ensures
        sqrt_floor(n) == r,
{
    let s = sqrt_floor(n);
    assert(is_sqrt(n, s));
    lemma_sqrt_unique(n, r, s);
}

/// Truncating division by a positive divisor keeps a bound `m` on the quotient.
pub proof fn lemma_tdiv_bound(a: int, b: int, m: int)
    requires
        b > 0,
        m >= 0,
        -(m * b) <= a <= m * b,
    ensures
        -m <= tdiv(a, b) <= m,
{
    lemma_div_by_multiple(m, b);
    if a >= 0 {
        lemma_div_is_ordered(a, m * b, b);
        lemma_div_pos_is_pos(a, b);
    } else {
        lemma_div_is_ordered(-a, m * b, b);
        lemma_div_pos_is_pos(-a, b);
    }
}

/// Truncating division of a non-negative value by a positive divisor is
/// non-negative and no larger than the value.
pub proof fn lemma_tdiv_nonneg(a: int, b: int)
    requires
        b > 0,
        a >= 0,
    ensures
        0 <= tdiv(a, b) <= a,
{
    lemma_div_pos_is_pos(a, b);
    assert(a / b <= a) by (nonlinear_arith)
        requires
            b > 0,
            a >= 0,
    {
        vstd::arithmetic::div_mod::lemma_div_is_ordered_by_denominator(a, 1, b);
    }
}

/// The fixed-point product of a factor in `[0, SCALE]` and a non-negative
/// value lies between zero and that value.
pub proof fn lemma_fmul_attenuates(a: int, c: int)
    requires
        0 <= a <= SCALE,
        0 <= c,
    ensures
        0 <= fmul(a, c) <= c,
{
    assert(0 <= a * c <= c * SCALE) by (nonlinear_arith)
        requires
            0 <= a <= SCALE,
            0 <= c,
    ;
    lemma_div_is_ordered(a * c, c * SCALE, SCALE as int);
    lemma_div_by_multiple(c, SCALE as int);
    lemma_div_pos_is_pos(a * c, SCALE as int);
}

/// Every non-negative integer has an integer square root.
pub proof fn lemma_sqrt_exists(n: int)
    requires
        n >= 0,
    ensures
        is_sqrt(n, sqrt_floor(n)),
    decreases n,
{
    if n == 0 {
        assert(is_sqrt(0, 0));
    } else {
        lemma_sqrt_exists(n - 1);
        let r = sqrt_floor(n - 1);
        if (r + 1) * (r + 1) <= n {
            assert(n < (r + 2) * (r + 2)) by (nonlinear_arith)
                requires
                    n - 1 < (r + 1) * (r + 1),
                    r >= 0,
            ;
            assert(is_sqrt(n, r + 1));
        } else {
            assert(is_sqrt(n, r));
        }
    }
}

/// Truncating division by a positive divisor is monotone.
pub proof fn lemma_tdiv_monotone(x: int, y: int, b: int)
    requires
        x <= y,
        b > 0,
    ensures
        tdiv(x, b) <= tdiv(y, b),
{
    if x >= 0 {
        lemma_div_is_ordered(x, y, b);
    } else if y < 0 {
        lemma_div_is_ordered(-y, -x, b);
    } else {
        lemma_div_pos_is_pos(-x, b);
        lemma_div_pos_is_pos(y, b);
    }
}

/// Division by a positive divisor rounding down.
pub open spec fn floor_div(a: int, b: int) -> int {
    if a >= 0 {
        a / b
    } else {
        -((-a + b - 1) / b)
    }
}

/// Division by a positive divisor rounding up.
pub open spec fn ceil_div(a: int, b: int) -> int {
    if a >= 0 {
        (a + b - 1) / b
    } else {
        -((-a) / b)
    }
}

/// Division by a positive divisor rounding away from zero.
pub open spec fn away_div(a: int, b: int) -> int {
    if a >= 0 {
        ceil_div(a, b)
    } else {
        floor_div(a, b)
    }
}

proof fn lemma_div_nonneg_bounds(p: int, b: int)
    requires
        p >= 0,
        b > 0,
    ensures
        (p / b) * b <= p < (p / b) * b + b,
        p <= ((p + b - 1) / b) * b < p + b,
        p / b >= 0,
        (p + b - 1) / b >= 0,
{
    vstd::arithmetic::div_mod::lemma_fundamental_div_mod(p, b);
    vstd::arithmetic::div_mod::lemma_fundamental_div_mod(p + b - 1, b);
    assert(0 <= p % b < b);
    assert(0 <= (p + b - 1) % b < b);
    assert((p / b) * b == b * (p / b)) by (nonlinear_arith);
    assert(((p + b - 1) / b) * b == b * ((p + b - 1) / b)) by (nonlinear_arith);
    lemma_div_pos_is_pos(p, b);
    lemma_div_pos_is_pos(p + b - 1, b);
}

/// What the directed divisions round to: `floor_div` lands at most one
/// divisor below, `ceil_div` at most one above.
pub proof fn lemma_directed_div(a: int, b: int)
    requires
        b > 0,
    ensures
        floor_div(a, b) * b <= a < floor_div(a, b) * b + b,
        ceil_div(a, b) * b - b < a <= ceil_div(a, b) * b,
{
    if a >= 0 {
        lemma_div_nonneg_bounds(a, b);
    } else {
        lemma_div_nonneg_bounds(-a, b);
        assert(floor_div(a, b) * b == -(((-a + b - 1) / b) * b)) by (nonlinear_arith)
            requires floor_div(a, b) == -((-a + b - 1) / b);
        assert(ceil_div(a, b) * b == -(((-a) / b) * b)) by (nonlinear_arith)
            requires ceil_div(a, b) == -((-a) / b);
    }
}

/// A directed quotient keeps a bound `m` on the exact quotient.
pub proof fn lemma_directed_div_bound(a: int, b: int, m: int)
    requires
        b > 0,
        m >= 0,
        -(m * b) <= a <= m * b,
    ensures
        -m <= floor_div(a, b) <= m,
        -m <= ceil_div(a, b) <= m,
        -m <= away_div(a, b) <= m,
{
    lemma_directed_div(a, b);
    let f = floor_div(a, b);
    let c = ceil_div(a, b);
    assert(-m <= f <= m) by (nonlinear_arith)
        requires f * b <= a < f * b + b, -(m * b) <= a <= m * b, b > 0;
    assert(-m <= c <= m) by (nonlinear_arith)
        requires c * b - b < a <= c * b, -(m * b) <= a <= m * b, b > 0;
}

/// `floor_div`, computed without overflow for numerators below `2^125`.
pub fn floor_div_exec(a: i128, b: i128) -> (r: i128)
    requires
        b > 0,
        -0x2000_0000_0000_0000_0000_0000_0000_0000 <= a <= 0x2000_0000_0000_0000_0000_0000_0000_0000,
        b <= 0x2000_0000_0000_0000_0000_0000_0000_0000,
    ensures
        r == floor_div(a as int, b as int),
{
    if a >= 0 {
        a / b
    } else {
        proof {
            lemma_div_nonneg_bounds(-a + b - 1, b as int);
            lemma_tdiv_nonneg(-a + b - 1, b as int);
        }
        -((-a + b - 1) / b)
    }
}

/// `ceil_div`, computed without overflow for numerators below `2^125`.
pub fn ceil_div_exec(a: i128, b: i128) -> (r: i128)
    requires
        b > 0,
        -0x2000_0000_0000_0000_0000_0000_0000_0000 <= a <= 0x2000_0000_0000_0000_0000_0000_0000_0000,
        b <= 0x2000_0000_0000_0000_0000_0000_0000_0000,
    ensures
        r == ceil_div(a as int, b as int),
{
    if a >= 0 {
        proof {
            lemma_tdiv_nonneg(a + b - 1, b as int);
        }
        (a + b - 1) / b
    } else {
        proof {
            lemma_tdiv_nonneg(-a, b as int);
        }
        -((-a) / b)
    }
}

/// Integer square root by bisection.
pub fn isqrt(n: u128) -> (r: u64)
    ensures
        is_sqrt(n as int, r as int),
        r == sqrt_floor(n as int),
{
    let mut lo: u128 = 0;
    let mut hi: u128 = 0x1_0000_0000_0000_0000;
    assert(n < hi * hi) by (nonlinear_arith)
        requires
            n <= u128::MAX,
            hi == 0x1_0000_0000_0000_0000u128,
    ;
    while hi - lo > 1
        invariant
            lo < hi <= 0x1_0000_0000_0000_0000u128,
            lo * lo <= n,
            n < hi * hi,
        decreases hi - lo,
    {
        let mid: u128 = lo + (hi - lo) / 2;
        assert(mid * mid < 0x1_0000_0000_0000_0000_0000_0000_0000_0000int) by (nonlinear_arith)
            requires
                mid < 0x1_0000_0000_0000_0000u128,
        ;
        if mid * mid <= n {
            lo = mid;
        } else {
            hi = mid;
        }
    }
    assert(hi == lo + 1);
    proof {
        lemma_sqrt_floor(n as int, lo as int);
    }
    lo as u64
}

} // verus!
