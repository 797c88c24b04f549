//! Fixed-point scalars and the numeric kernel.
//!
//! A scalar is an `i64` whose value is `raw / SCALE`. Division rounds
//! toward negative infinity; [`fdiv`] is the specification of that
//! rounding, and every contract in the crate states results through it.

use vstd::prelude::*;
use vstd::arithmetic::div_mod::{
    lemma_fundamental_div_mod, lemma_fundamental_div_mod_converse_div, lemma_div_is_ordered,
    lemma_div_pos_is_pos,
};

verus! {

/// Raw units per 1.0: scalars are i64 multiples of 1/SCALE.
pub const SCALE: i64 = 65536;

/// Largest magnitude (in raw units) admitted for a coordinate of a
/// scene point, a ray origin or direction, or a sphere radius.
pub const COORD_MAX: i64 = 536870912;

/// The circle constant, in raw units (the nearest multiple of 1/SCALE).
pub const PI_FX: i64 = 205887;

/// Floor division: the unique q with q*b <= a < (q+1)*b for b > 0,
/// and the same value read through -a/-b for b < 0.
pub open spec fn fdiv(a: int, b: int) -> int
    recommends
        b != 0,
{
    if b > 0 {
        a / b
    } else {
        (-a) / (-b)
    }
}

/// fdiv agrees with the Euclidean division that `/` means on int
/// whenever the divisor is positive, so q*b <= a < (q+1)*b.
pub proof fn lemma_fdiv_bracket(a: int, b: int)
    requires
        b > 0,
    ensures
        fdiv(a, b) * b <= a < (fdiv(a, b) + 1) * b,
{
    lemma_fundamental_div_mod(a, b);
    assert(fdiv(a, b) * b <= a < (fdiv(a, b) + 1) * b) by (nonlinear_arith)
        requires
            b > 0,
            a == b * (a / b) + a % b,
            0 <= a % b < b,
            fdiv(a, b) == a / b,
    ;
}

/// fdiv is monotone in the numerator, for a positive divisor.
pub proof fn lemma_fdiv_ordered(a1: int, a2: int, b: int)
    requires
        a1 <= a2,
        b > 0,
    ensures
        fdiv(a1, b) <= fdiv(a2, b),
{
    lemma_div_is_ordered(a1, a2, b);
}

/// A nonnegative numerator over a positive divisor gives a quotient
/// between 0 and the numerator.
pub proof fn lemma_fdiv_nonneg(a: int, b: int)
    requires
        0 <= a,
        b > 0,
    ensures
        0 <= fdiv(a, b) <= a,
{
    lemma_div_pos_is_pos(a, b);
    lemma_fdiv_bracket(a, b);
    assert(fdiv(a, b) <= a) by (nonlinear_arith)
        requires
            b > 0,
            0 <= fdiv(a, b),
            fdiv(a, b) * b <= a,
    ;
}

/// Scaling down by a positive divisor keeps a strict upper multiple:
/// a < c*b implies fdiv(a, b) < c.
pub proof fn lemma_fdiv_below(a: int, b: int, c: int)
    requires
        b > 0,
        a < c * b,
    ensures
        fdiv(a, b) < c,
{
    lemma_fdiv_bracket(a, b);
    assert(fdiv(a, b) < c) by (nonlinear_arith)
        requires
            b > 0,
            fdiv(a, b) * b <= a,
            a < c * b,
    ;
}

/// A bound on the numerator bounds the quotient: |a| <= m gives
/// -fdiv(m, b) - 1 <= fdiv(a, b) <= fdiv(m, b).
pub proof fn lemma_fdiv_in(a: int, b: int, m: int)
    requires
        b > 0,
        0 <= m,
        -m <= a <= m,
    ensures
        -fdiv(m, b) - 1 <= fdiv(a, b) <= fdiv(m, b),
{
    lemma_fdiv_ordered(a, m, b);
    lemma_fdiv_ordered(-m, a, b);
    lemma_fdiv_bracket(m, b);
    lemma_fdiv_bracket(-m, b);
    assert(-fdiv(m, b) - 1 <= fdiv(-m, b)) by (nonlinear_arith)
        requires
            b > 0,
            fdiv(m, b) * b <= m < (fdiv(m, b) + 1) * b,
            fdiv(-m, b) * b <= -m < (fdiv(-m, b) + 1) * b,
    ;
}

/// Bounds on both factors bound the scaled-down product.
pub proof fn lemma_fdiv_prod_in(a: int, b: int, d: int, m1: int, m2: int)
    requires
        d > 0,
        0 <= m1,
        0 <= m2,
        -m1 <= a <= m1,
        -m2 <= b <= m2,
    ensures
        -(m1 * m2) <= a * b <= m1 * m2,
        -fdiv(m1 * m2, d) - 1 <= fdiv(a * b, d) <= fdiv(m1 * m2, d),
{
    assert(-(m1 * m2) <= a * b <= m1 * m2) by (nonlinear_arith)
        requires
            0 <= m1,
            0 <= m2,
            -m1 <= a <= m1,
            -m2 <= b <= m2,
    ;
    assert(0 <= m1 * m2) by (nonlinear_arith)
        requires
            0 <= m1,
            0 <= m2,
    ;
    lemma_fdiv_in(a * b, d, m1 * m2);
}

/// Floor division of two machine integers, exact per [`fdiv`].
pub fn div_floor(a: i128, b: i128) -> (r: i128)
    requires
        b != 0,
        a != i128::MIN,
        b != i128::MIN,
    ensures
        r == fdiv(a as int, b as int),
{
    let (a2, b2): (i128, i128) = if b < 0 { (-a, -b) } else { (a, b) };
    proof {
        assert(fdiv(a as int, b as int) == fdiv(a2 as int, b2 as int));
    }
    let neg: bool = a2 < 0;
    let m: u128 = if neg { (-a2) as u128 } else { a2 as u128 };
    let d: u128 = b2 as u128;
    let q: u128 = m / d;
    let rem: u128 = m % d;
    proof {
        lemma_fundamental_div_mod(m as int, d as int);
        assert(q <= m) by {
            lemma_fdiv_nonneg(m as int, d as int);
        }
    }
    proof {
        assert(m as int == b2 as int * q as int + rem as int);
    }
    if !neg {
        q as i128
    } else if rem == 0 {
        proof {
            assert(a2 as int == (-(q as int)) * b2 as int + 0) by (nonlinear_arith)
                requires
                    m as int == b2 as int * q as int + rem as int,
                    rem == 0,
                    a2 as int == -(m as int),
            ;
            lemma_fundamental_div_mod_converse_div(a2 as int, b2 as int, -(q as int), 0);
        }
        -(q as i128)
    } else {
        proof {
            assert(a2 as int == (-(q as int) - 1) * b2 as int + (b2 as int - rem as int))
                by (nonlinear_arith)
                requires
                    m as int == b2 as int * q as int + rem as int,
                    a2 as int == -(m as int),
            ;
            lemma_fundamental_div_mod_converse_div(
                a2 as int,
                b2 as int,
                -(q as int) - 1,
                b2 as int - rem as int,
            );
        }
        -(q as i128) - 1
    }
}

/// True of r exactly when r is the integer square root of n.
pub open spec fn is_sqrt_floor(n: int, r: int) -> bool {
    0 <= r && r * r <= n && n < (r + 1) * (r + 1)
}

/// The integer square root: the unique r with r*r <= n < (r+1)*(r+1).
pub open spec fn sqrt_floor(n: int) -> int {
    choose|r: int| is_sqrt_floor(n, r)
}

/// Every nonnegative integer has an integer square root, and
/// [`sqrt_floor`] denotes it.
pub proof fn lemma_sqrt_floor_exists(n: int)
    requires
        n >= 0,
    ensures
        is_sqrt_floor(n, sqrt_floor(n)),
    decreases n,
{
    if n == 0 {
        assert(is_sqrt_floor(0, 0));
    } else {
        lemma_sqrt_floor_exists(n - 1);
        let r = sqrt_floor(n - 1);
        if n < (r + 1) * (r + 1) {
            assert(is_sqrt_floor(n, r));
        } else {
            assert(n == (r + 1) * (r + 1));
            assert((r + 1) * (r + 1) < (r + 2) * (r + 2)) by (nonlinear_arith)
                requires
                    r >= 0,
            ;
            assert(is_sqrt_floor(n, r + 1));
        }
    }
}

/// The integer square root is unique.
pub proof fn lemma_sqrt_floor_unique(n: int, r1: int, r2: int)
    requires
        is_sqrt_floor(n, r1),
        is_sqrt_floor(n, r2),
    ensures
        r1 == r2,
{
    assert(r1 == r2) by (nonlinear_arith)
        requires
            0 <= r1 && r1 * r1 <= n && n < (r1 + 1) * (r1 + 1),
            0 <= r2 && r2 * r2 <= n && n < (r2 + 1) * (r2 + 1),
    ;
}

/// Integer square root by bisection.
pub fn isqrt(n: u128) -> (r: u128)
    requires
        n < 0x40000000000000000000000000000000u128,
    ensures
        r == sqrt_floor(n as int),
        is_sqrt_floor(n as int, r as int),
{
    let mut lo: u128 = 0;
    let mut hi: u128 = 0x8000000000000000u128;
    proof {
        assert((hi as int) * (hi as int) == 0x40000000000000000000000000000000int);
    }
    while hi - lo > 1
        invariant
            0 <= lo < hi <= 0x8000000000000000u128,
            (lo as int) * (lo as int) <= n as int,
            (n as int) < (hi as int) * (hi as int),
        decreases hi - lo,
    {
        let mid: u128 = lo + (hi - lo) / 2;
        proof {
            assert(lo < mid < hi);
            assert(mid * mid <= 0x8000000000000000u128 * 0x8000000000000000u128)
                by (nonlinear_arith)
                requires
                    0 <= mid <= 0x8000000000000000u128,
            ;
        }
        if mid * mid <= n {
            lo = mid;
        } else {
            hi = mid;
        }
    }
    proof {
        assert(hi == lo + 1);
        assert(is_sqrt_floor(n as int, lo as int));
        lemma_sqrt_floor_exists(n as int);
        lemma_sqrt_floor_unique(n as int, lo as int, sqrt_floor(n as int));
    }
    lo
}

/// Fixed-point product: (a*b)/SCALE, rounded toward negative infinity.
pub fn mul_fx(a: i64, b: i64) -> (r: i64)
    requires
        i64::MIN <= fdiv(a as int * b as int, SCALE as int) <= i64::MAX,
    ensures
        r == fdiv(a as int * b as int, SCALE as int),
{
    let p: i128 = (a as i128) * (b as i128);
    let q: i128 = div_floor(p, SCALE as i128);
    q as i64
}

/// Fixed-point quotient: (a*SCALE)/b, rounded toward negative infinity.
pub fn div_fx(a: i64, b: i64) -> (r: i64)
    requires
        b != 0,
        i64::MIN <= fdiv(a as int * SCALE as int, b as int) <= i64::MAX,
    ensures
        r == fdiv(a as int * SCALE as int, b as int),
{
    let p: i128 = (a as i128) * (SCALE as i128);
    let q: i128 = div_floor(p, b as i128);
    q as i64
}

/// Clamp x into [min, max].
pub fn clamp(x: i64, min: i64, max: i64) -> (r: i64)
    ensures
        r == if x < min {
            min
        } else if x > max {
            max
        } else {
            x
        },
{
    if x < min {
        min
    } else if x > max {
        max
    } else {
        x
    }
}

/// A uniform fixed-point sample in [0, 1).
///
/// Relies on rand::random::<u16>: a uniform draw over all 65536 raw
/// values, which is exactly the fixed-point grid of [0, 1).
#[verifier::external_body]
pub fn random() -> (r: i64)
    ensures
        0 <= r < SCALE,
{
    rand::random::<u16>() as i64
}

/// A uniform fixed-point sample in [min, max): min + (max - min) * u
/// for a fresh u in [0, 1).
pub fn random_range(min: i64, max: i64) -> (r: i64)
    requires
        min <= max,
        max - min <= i64::MAX,
    ensures
        min <= r <= max,
        min < max ==> r < max,
        min == max ==> r == min,
{
    let u: i64 = random();
    let span: i64 = max - min;
    proof {
        assert(span as int * u as int <= i64::MAX * 65536) by (nonlinear_arith)
            requires
                0 <= span <= i64::MAX,
                0 <= u < 65536,
        ;
    }
    let p: i128 = (span as i128) * (u as i128);
    let q: i128 = div_floor(p, SCALE as i128);
    proof {
        lemma_fdiv_nonneg(p as int, SCALE as int);
        assert(p <= span as int * SCALE) by (nonlinear_arith)
            requires
                0 <= span,
                0 <= u < SCALE,
                p == span as int * u as int,
        ;
        if span > 0 {
            assert(p < span as int * SCALE) by (nonlinear_arith)
                requires
                    0 < span,
                    0 <= u < SCALE,
                    p == span as int * u as int,
            ;
            lemma_fdiv_below(p as int, SCALE as int, span as int);
        } else {
            assert(p == 0) by (nonlinear_arith)
                requires
                    span == 0,
                    p == span as int * u as int,
            ;
        }
    }
    min + (q as i64)
}

/// Degrees to radians: d * pi / 180, in fixed point.
pub fn degrees_to_radians(degrees: i64) -> (r: i64)
    requires
        -0x10000000000 <= degrees <= 0x10000000000,
    ensures
        r == fdiv(degrees as int * PI_FX as int, 180 * SCALE as int),
{
    let p: i128 = (degrees as i128) * (PI_FX as i128);
    let d: i128 = 180 * (SCALE as i128);
    let q: i128 = div_floor(p, d);
    proof {
        lemma_fdiv_ordered(p as int, 0x10000000000 * PI_FX as int, d as int);
        lemma_fdiv_ordered(-0x10000000000 * PI_FX as int, p as int, d as int);
        assert(fdiv(0x10000000000 * PI_FX as int, 180 * SCALE as int) <= i64::MAX);
        assert(fdiv(-0x10000000000 * PI_FX as int, 180 * SCALE as int) >= i64::MIN);
    }
    q as i64
}

} // verus!
