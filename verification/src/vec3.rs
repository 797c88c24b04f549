//! Three-component fixed-point vectors: points, directions and colors.
//!
//! Components are raw `i64` multiples of `1 / SCALE`. All algebraic
//! operations return new vectors and state their result exactly; the
//! compound-assignment forms promise the identical components.

use vstd::prelude::*;
use crate::utility;
use crate::utility::{
    fdiv, is_sqrt_floor, sqrt_floor, lemma_fdiv_in, lemma_fdiv_prod_in, lemma_fdiv_ordered,
    lemma_fdiv_nonneg, lemma_sqrt_floor_exists, SCALE, COORD_MAX,
};
use vstd::arithmetic::div_mod::lemma_div_multiples_vanish;

verus! {

#[derive(Clone, Copy, PartialEq, Eq, Structural, Debug)]
pub struct Vec3 {
    pub x: i64,
    pub y: i64,
    pub z: i64,
}

/// The exact (unscaled) dot product of the raw components; its value
/// carries scale SCALE * SCALE.
pub open spec fn dotw(a: Vec3, b: Vec3) -> int {
    a.x * b.x + a.y * b.y + a.z * b.z
}

/// Every component lies in [-m, m].
pub open spec fn in_box(v: Vec3, m: int) -> bool {
    &&& -m <= v.x <= m
    &&& -m <= v.y <= m
    &&& -m <= v.z <= m
}

/// Componentwise sums stay in the i64 range.
pub open spec fn can_add(a: Vec3, b: Vec3) -> bool {
    &&& i64::MIN <= a.x + b.x <= i64::MAX
    &&& i64::MIN <= a.y + b.y <= i64::MAX
    &&& i64::MIN <= a.z + b.z <= i64::MAX
}

/// Componentwise differences stay in the i64 range.
pub open spec fn can_sub(a: Vec3, b: Vec3) -> bool {
    &&& i64::MIN <= a.x - b.x <= i64::MAX
    &&& i64::MIN <= a.y - b.y <= i64::MAX
    &&& i64::MIN <= a.z - b.z <= i64::MAX
}

/// The exact reflection of v about n, scaled up by SCALE * SCALE so
/// that it stays integral: SCALE^2 * v - 2 * dotw(v, n) * n.
pub open spec fn reflect_num(v: (int, int, int), n: (int, int, int)) -> (int, int, int) {
    let d = v.0 * n.0 + v.1 * n.1 + v.2 * n.2;
    (
        SCALE * SCALE * v.0 - 2 * d * n.0,
        SCALE * SCALE * v.1 - 2 * d * n.1,
        SCALE * SCALE * v.2 - 2 * d * n.2,
    )
}

/// Reflecting twice about a unit normal gives the vector back: on the
/// exact (unrounded) reflection, reflect is an involution. Each
/// application scales by SCALE^2, so the double image is the original
/// vector scaled by SCALE^4.
pub proof fn lemma_reflect_involution(v: (int, int, int), n: (int, int, int))
    requires
        n.0 * n.0 + n.1 * n.1 + n.2 * n.2 == SCALE * SCALE,
    ensures
        reflect_num(reflect_num(v, n), n).0 == SCALE * SCALE * SCALE * SCALE * v.0,
        reflect_num(reflect_num(v, n), n).1 == SCALE * SCALE * SCALE * SCALE * v.1,
        reflect_num(reflect_num(v, n), n).2 == SCALE * SCALE * SCALE * SCALE * v.2,
{
    let s2 = SCALE * SCALE;
    let d = v.0 * n.0 + v.1 * n.1 + v.2 * n.2;
    let r = reflect_num(v, n);
    let d2 = r.0 * n.0 + r.1 * n.1 + r.2 * n.2;
    assert((s2 * v.0 - 2 * d * n.0) * n.0 == s2 * (v.0 * n.0) - 2 * d * (n.0 * n.0))
        by (nonlinear_arith);
    assert((s2 * v.1 - 2 * d * n.1) * n.1 == s2 * (v.1 * n.1) - 2 * d * (n.1 * n.1))
        by (nonlinear_arith);
    assert((s2 * v.2 - 2 * d * n.2) * n.2 == s2 * (v.2 * n.2) - 2 * d * (n.2 * n.2))
        by (nonlinear_arith);
    assert(s2 * (v.0 * n.0) + s2 * (v.1 * n.1) + s2 * (v.2 * n.2) == s2 * d) by (nonlinear_arith)
        requires
            d == v.0 * n.0 + v.1 * n.1 + v.2 * n.2,
    ;
    assert(2 * d * (n.0 * n.0) + 2 * d * (n.1 * n.1) + 2 * d * (n.2 * n.2) == 2 * d * s2)
        by (nonlinear_arith)
        requires
            n.0 * n.0 + n.1 * n.1 + n.2 * n.2 == s2,
    ;
    assert(s2 * d - 2 * d * s2 == -s2 * d) by (nonlinear_arith);
    assert(d2 == -s2 * d);
    assert(s2 * r.0 - 2 * d2 * n.0 == s2 * s2 * v.0) by (nonlinear_arith)
        requires
            d2 == -s2 * d,
            r.0 == s2 * v.0 - 2 * d * n.0,
    ;
    assert(s2 * r.1 - 2 * d2 * n.1 == s2 * s2 * v.1) by (nonlinear_arith)
        requires
            d2 == -s2 * d,
            r.1 == s2 * v.1 - 2 * d * n.1,
    ;
    assert(s2 * r.2 - 2 * d2 * n.2 == s2 * s2 * v.2) by (nonlinear_arith)
        requires
            d2 == -s2 * d,
            r.2 == s2 * v.2 - 2 * d * n.2,
    ;
}

impl Vec3 {
    pub fn new(e0: i64, e1: i64, e2: i64) -> (r: Vec3)
        ensures
            r.x == e0 && r.y == e1 && r.z == e2,
    {
        Vec3 { x: e0, y: e1, z: e2 }
    }

    /// Component access by index, bounds-checked to {0, 1, 2}.
    pub fn index(self, i: usize) -> (r: i64)
        requires
            i < 3,
        ensures
            r == if i == 0 {
                self.x
            } else if i == 1 {
                self.y
            } else {
                self.z
            },
    {
        if i == 0 {
            self.x
        } else if i == 1 {
            self.y
        } else {
            self.z
        }
    }

    pub fn x(self) -> (r: i64)
        ensures
            r == self.x,
    {
        self.x
    }

    pub fn y(self) -> (r: i64)
        ensures
            r == self.y,
    {
        self.y
    }

    pub fn z(self) -> (r: i64)
        ensures
            r == self.z,
    {
        self.z
    }

    pub fn neg(self) -> (r: Vec3)
        requires
            self.x != i64::MIN,
            self.y != i64::MIN,
            self.z != i64::MIN,
        ensures
            r.x == -self.x && r.y == -self.y && r.z == -self.z,
    {
        Vec3 { x: -self.x, y: -self.y, z: -self.z }
    }

    pub fn add(self, o: Vec3) -> (r: Vec3)
        requires
            can_add(self, o),
        ensures
            r.x == self.x + o.x && r.y == self.y + o.y && r.z == self.z + o.z,
    {
        Vec3 { x: self.x + o.x, y: self.y + o.y, z: self.z + o.z }
    }

    pub fn add_assign(&mut self, o: Vec3)
        requires
            can_add(*old(self), o),
        ensures
            final(self).x == old(self).x + o.x,
            final(self).y == old(self).y + o.y,
            final(self).z == old(self).z + o.z,
    {
        self.x = self.x + o.x;
        self.y = self.y + o.y;
        self.z = self.z + o.z;
    }

    pub fn sub(self, o: Vec3) -> (r: Vec3)
        requires
            can_sub(self, o),
        ensures
            r.x == self.x - o.x && r.y == self.y - o.y && r.z == self.z - o.z,
    {
        Vec3 { x: self.x - o.x, y: self.y - o.y, z: self.z - o.z }
    }

    pub fn sub_assign(&mut self, o: Vec3)
        requires
            can_sub(*old(self), o),
        ensures
            final(self).x == old(self).x - o.x,
            final(self).y == old(self).y - o.y,
            final(self).z == old(self).z - o.z,
    {
        self.x = self.x - o.x;
        self.y = self.y - o.y;
        self.z = self.z - o.z;
    }

    /// Componentwise product, for color tinting: each component is
    /// (a_i * b_i) / SCALE rounded down.
    pub fn mul(self, o: Vec3) -> (r: Vec3)
        requires
            in_box(self, COORD_MAX as int),
            in_box(o, COORD_MAX as int),
        ensures
            r.x == fdiv(self.x * o.x, SCALE as int),
            r.y == fdiv(self.y * o.y, SCALE as int),
            r.z == fdiv(self.z * o.z, SCALE as int),
    {
        Vec3 {
            x: mul_comp(self.x, o.x),
            y: mul_comp(self.y, o.y),
            z: mul_comp(self.z, o.z),
        }
    }

    /// Scale by the fixed-point scalar t.
    pub fn scale(self, t: i64) -> (r: Vec3)
        requires
            in_box(self, COORD_MAX as int),
            -COORD_MAX <= t <= COORD_MAX,
        ensures
            r.x == fdiv(self.x * t, SCALE as int),
            r.y == fdiv(self.y * t, SCALE as int),
            r.z == fdiv(self.z * t, SCALE as int),
    {
        Vec3 { x: mul_comp(self.x, t), y: mul_comp(self.y, t), z: mul_comp(self.z, t) }
    }

    pub fn mul_assign(&mut self, t: i64)
        requires
            in_box(*old(self), COORD_MAX as int),
            -COORD_MAX <= t <= COORD_MAX,
        ensures
            final(self).x == fdiv(old(self).x * t, SCALE as int),
            final(self).y == fdiv(old(self).y * t, SCALE as int),
            final(self).z == fdiv(old(self).z * t, SCALE as int),
    {
        self.x = mul_comp(self.x, t);
        self.y = mul_comp(self.y, t);
        self.z = mul_comp(self.z, t);
    }

    /// Divide by the fixed-point scalar t: each component is
    /// (v_i * SCALE) / t rounded down.
    pub fn div(self, t: i64) -> (r: Vec3)
        requires
            t != 0,
            in_box(self, COORD_MAX as int),
            -COORD_MAX <= t <= COORD_MAX,
        ensures
            r.x == fdiv(self.x * SCALE, t as int),
            r.y == fdiv(self.y * SCALE, t as int),
            r.z == fdiv(self.z * SCALE, t as int),
    {
        Vec3 { x: div_comp(self.x, t), y: div_comp(self.y, t), z: div_comp(self.z, t) }
    }

    pub fn div_assign(&mut self, t: i64)
        requires
            t != 0,
            in_box(*old(self), COORD_MAX as int),
            -COORD_MAX <= t <= COORD_MAX,
        ensures
            final(self).x == fdiv(old(self).x * SCALE, t as int),
            final(self).y == fdiv(old(self).y * SCALE, t as int),
            final(self).z == fdiv(old(self).z * SCALE, t as int),
    {
        self.x = div_comp(self.x, t);
        self.y = div_comp(self.y, t);
        self.z = div_comp(self.z, t);
    }

    /// The full-precision dot product of the raw components
    /// (scale SCALE^2), with no rounding at all.
    pub fn dot_wide(self, o: Vec3) -> (r: i128)
        requires
            in_box(self, COORD_MAX as int),
            in_box(o, COORD_MAX as int),
        ensures
            r == dotw(self, o),
    {
        proof {
            lemma_prod_box(self.x as int, o.x as int);
            lemma_prod_box(self.y as int, o.y as int);
            lemma_prod_box(self.z as int, o.z as int);
        }
        (self.x as i128) * (o.x as i128) + (self.y as i128) * (o.y as i128) + (self.z as i128)
            * (o.z as i128)
    }

    /// The fixed-point dot product: dotw / SCALE, rounded down.
    pub fn dot(self, o: Vec3) -> (r: i64)
        requires
            in_box(self, COORD_MAX as int),
            in_box(o, COORD_MAX as int),
        ensures
            r == fdiv(dotw(self, o), SCALE as int),
    {
        let w: i128 = self.dot_wide(o);
        proof {
            lemma_prod_box(self.x as int, o.x as int);
            lemma_prod_box(self.y as int, o.y as int);
            lemma_prod_box(self.z as int, o.z as int);
            lemma_fdiv_in(w as int, SCALE as int, 3 * (COORD_MAX as int) * (COORD_MAX as int));
        }
        let q: i128 = utility::div_floor(w, SCALE as i128);
        q as i64
    }

    pub fn cross(self, o: Vec3) -> (r: Vec3)
        requires
            in_box(self, COORD_MAX as int),
            in_box(o, COORD_MAX as int),
        ensures
            r.x == fdiv(self.y * o.z, SCALE as int) - fdiv(self.z * o.y, SCALE as int),
            r.y == fdiv(self.z * o.x, SCALE as int) - fdiv(self.x * o.z, SCALE as int),
            r.z == fdiv(self.x * o.y, SCALE as int) - fdiv(self.y * o.x, SCALE as int),
    {
        Vec3 {
            x: mul_comp(self.y, o.z) - mul_comp(self.z, o.y),
            y: mul_comp(self.z, o.x) - mul_comp(self.x, o.z),
            z: mul_comp(self.x, o.y) - mul_comp(self.y, o.x),
        }
    }

    /// The squared Euclidean norm, in fixed point: dotw(v, v) / SCALE.
    pub fn length_squared(self) -> (r: i64)
        requires
            in_box(self, COORD_MAX as int),
        ensures
            r == fdiv(dotw(self, self), SCALE as int),
    {
        self.dot(self)
    }

    /// The Euclidean norm: the integer square root of dotw(v, v),
    /// which carries scale SCALE.
    pub fn length(self) -> (r: i64)
        requires
            in_box(self, COORD_MAX as int),
        ensures
            r == sqrt_floor(dotw(self, self)),
            is_sqrt_floor(dotw(self, self), r as int),
            0 <= r <= 3 * COORD_MAX,
    {
        let w: i128 = self.dot_wide(self);
        proof {
            lemma_dotw_self_bounds(self);
        }
        let s: u128 = utility::isqrt(w as u128);
        proof {
            let m = 3 * (COORD_MAX as int) * (COORD_MAX as int);
            assert((3 * COORD_MAX as int) * (3 * COORD_MAX as int) >= m);
            assert(s as int <= 3 * COORD_MAX as int) by (nonlinear_arith)
                requires
                    (s as int) * (s as int) <= w as int,
                    w as int <= m,
                    (3 * COORD_MAX as int) * (3 * COORD_MAX as int) >= m,
                    0 <= s,
                    m == 3 * (COORD_MAX as int) * (COORD_MAX as int),
            ;
        }
        s as i64
    }

    /// Self divided by its own length; degenerate inputs (anything
    /// that rounds to the zero vector) are excluded.
    /// Each component of the result stays within one unit, and the
    /// squared length of the result is at least a quarter: the grid
    /// cannot promise an exactly unit result (normalizing (1, 1, 0)
    /// raw gives (1, 1, 0) in units), but it is bounded on both
    /// sides for every input.
    pub fn unit_vector(self) -> (r: Vec3)
        requires
            in_box(self, COORD_MAX as int),
            dotw(self, self) >= 1,
        ensures
            r.x == fdiv(self.x * SCALE, sqrt_floor(dotw(self, self))),
            r.y == fdiv(self.y * SCALE, sqrt_floor(dotw(self, self))),
            r.z == fdiv(self.z * SCALE, sqrt_floor(dotw(self, self))),
            r == unit_v(self),
            in_box(r, SCALE as int),
            4 * dotw(r, r) >= SCALE * SCALE,
            dotw(r, r) <= 3 * (SCALE * SCALE),
    {
        let len: i64 = self.length();
        proof {
            lemma_sq_le_dotw(self);
            lemma_unit_comp(self.x as int, dotw(self, self), len as int);
            lemma_unit_comp(self.y as int, dotw(self, self), len as int);
            lemma_unit_comp(self.z as int, dotw(self, self), len as int);
            lemma_unit_v_norm(self);
        }
        let rx: i128 = utility::div_floor((self.x as i128) * (SCALE as i128), len as i128);
        let ry: i128 = utility::div_floor((self.y as i128) * (SCALE as i128), len as i128);
        let rz: i128 = utility::div_floor((self.z as i128) * (SCALE as i128), len as i128);
        Vec3 { x: rx as i64, y: ry as i64, z: rz as i64 }
    }

    /// True iff the vector is zero at the fixed-point resolution: the
    /// near-zero threshold (1e-8 per component) lies below 1 / SCALE,
    /// so only exact zero components qualify.
    pub fn near_zero(self) -> (r: bool)
        ensures
            r == (self.x == 0 && self.y == 0 && self.z == 0),
    {
        self.x == 0 && self.y == 0 && self.z == 0
    }

    /// v - 2 * dot(v, n) * n, with a single rounding per component:
    /// the result is the exact reflection reflect_num(v, n) scaled
    /// down by SCALE^2 and rounded toward negative infinity.
    pub fn reflect(v: Vec3, n: Vec3) -> (r: Vec3)
        requires
            in_box(v, 2 * SCALE as int),
            in_box(n, 2 * SCALE as int),
        ensures
            r.x == v.x - fdiv(2 * dotw(v, n) * n.x, SCALE * SCALE),
            r.y == v.y - fdiv(2 * dotw(v, n) * n.y, SCALE * SCALE),
            r.z == v.z - fdiv(2 * dotw(v, n) * n.z, SCALE * SCALE),
            r == reflect_v(v, n),
            in_box(r, 51 * SCALE as int),
            0 <= SCALE * SCALE * r.x - reflect_num((v.x as int, v.y as int, v.z as int), (n.x as int, n.y as int, n.z as int)).0 < SCALE * SCALE,
            0 <= SCALE * SCALE * r.y - reflect_num((v.x as int, v.y as int, v.z as int), (n.x as int, n.y as int, n.z as int)).1 < SCALE * SCALE,
            0 <= SCALE * SCALE * r.z - reflect_num((v.x as int, v.y as int, v.z as int), (n.x as int, n.y as int, n.z as int)).2 < SCALE * SCALE,
    {
        let d: i128 = Vec3::dot_wide(v, n);
        proof {
            assert(-12 * (SCALE * SCALE as int) <= d <= 12 * (SCALE * SCALE as int))
                by (nonlinear_arith)
                requires
                    in_box(v, 2 * SCALE as int),
                    in_box(n, 2 * SCALE as int),
                    d == dotw(v, n),
            ;
        }
        let ex: i64 = reflect_comp(d, n.x);
        let ey: i64 = reflect_comp(d, n.y);
        let ez: i64 = reflect_comp(d, n.z);
        let r = Vec3 { x: v.x - ex, y: v.y - ey, z: v.z - ez };
        proof {
            lemma_reflect_tie(v.x as int, n.x as int, dotw(v, n), ex as int);
            lemma_reflect_tie(v.y as int, n.y as int, dotw(v, n), ey as int);
            lemma_reflect_tie(v.z as int, n.z as int, dotw(v, n), ez as int);
        }
        r
    }
}

/// The componentwise sum as a vector, for stating directions built
/// from in-range parts.
pub open spec fn vadd(a: Vec3, b: Vec3) -> Vec3 {
    Vec3 { x: (a.x + b.x) as i64, y: (a.y + b.y) as i64, z: (a.z + b.z) as i64 }
}

/// The componentwise negation as a vector.
pub open spec fn vneg(a: Vec3) -> Vec3 {
    Vec3 { x: (-a.x) as i64, y: (-a.y) as i64, z: (-a.z) as i64 }
}

/// The vector scaled by the fixed-point scalar t, each component
/// rounded down.
pub open spec fn vscale(a: Vec3, t: int) -> Vec3 {
    Vec3 {
        x: fdiv(a.x * t, SCALE as int) as i64,
        y: fdiv(a.y * t, SCALE as int) as i64,
        z: fdiv(a.z * t, SCALE as int) as i64,
    }
}

/// The unit vector of v: each component scaled by SCALE and divided
/// by the integer square root of dotw(v, v).
pub open spec fn unit_v(v: Vec3) -> Vec3 {
    let len = sqrt_floor(dotw(v, v));
    Vec3 {
        x: fdiv(v.x * SCALE, len) as i64,
        y: fdiv(v.y * SCALE, len) as i64,
        z: fdiv(v.z * SCALE, len) as i64,
    }
}

/// The rounded reflection of v about n as a vector.
pub open spec fn reflect_v(v: Vec3, n: Vec3) -> Vec3 {
    Vec3 {
        x: (v.x - fdiv(2 * dotw(v, n) * n.x, SCALE * SCALE)) as i64,
        y: (v.y - fdiv(2 * dotw(v, n) * n.y, SCALE * SCALE)) as i64,
        z: (v.z - fdiv(2 * dotw(v, n) * n.z, SCALE * SCALE)) as i64,
    }
}

/// The rounded refraction of v through n as a vector.
pub open spec fn refract_v(v: Vec3, n: Vec3, ratio: int) -> Vec3 {
    let r = refract_num(v, n, ratio);
    Vec3 { x: r.0 as i64, y: r.1 as i64, z: r.2 as i64 }
}

/// The incidence cosine used by refraction: dot(-v, n) in fixed
/// point, capped at 1.
pub open spec fn refract_cos(v: Vec3, n: Vec3) -> int {
    let c = fdiv(-dotw(v, n), SCALE as int);
    if c > SCALE {
        SCALE as int
    } else {
        c
    }
}

/// One component of the perpendicular part of a refracted direction:
/// ratio * (vc + cos * nc / SCALE) / SCALE, each division rounded down.
pub open spec fn refract_perp_c(vc: int, nc: int, cos: int, ratio: int) -> int {
    fdiv(ratio * (vc + fdiv(cos * nc, SCALE as int)), SCALE as int)
}

/// The refracted direction, componentwise: the perpendicular part
/// eta * (v + cos * n) plus the parallel part -sqrt(|1 - |perp|^2|) * n,
/// written over the raw fixed-point values.
pub open spec fn refract_num(v: Vec3, n: Vec3, ratio: int) -> (int, int, int) {
    let cos = refract_cos(v, n);
    let px = refract_perp_c(v.x as int, n.x as int, cos, ratio);
    let py = refract_perp_c(v.y as int, n.y as int, cos, ratio);
    let pz = refract_perp_c(v.z as int, n.z as int, cos, ratio);
    let k = SCALE * SCALE - (px * px + py * py + pz * pz);
    let kk = if k < 0 {
        -k
    } else {
        k
    };
    let s = sqrt_floor(kk);
    (px - fdiv(s * n.x, SCALE as int), py - fdiv(s * n.y, SCALE as int), pz - fdiv(
        s * n.z,
        SCALE as int,
    ))
}

impl Vec3 {
    /// A vector with three fresh uniform components in [0, 1).
    pub fn random() -> (r: Vec3)
        ensures
            0 <= r.x < SCALE,
            0 <= r.y < SCALE,
            0 <= r.z < SCALE,
    {
        Vec3 { x: utility::random(), y: utility::random(), z: utility::random() }
    }

    /// A vector with three fresh uniform components in [min, max).
    pub fn random_range(min: i64, max: i64) -> (r: Vec3)
        requires
            min <= max,
            max - min <= i64::MAX,
        ensures
            min <= r.x <= max && (min < max ==> r.x < max),
            min <= r.y <= max && (min < max ==> r.y < max),
            min <= r.z <= max && (min < max ==> r.z < max),
    {
        Vec3 {
            x: utility::random_range(min, max),
            y: utility::random_range(min, max),
            z: utility::random_range(min, max),
        }
    }

    /// Rejection sampling: draw from the cube [-1, 1)^3 until the
    /// squared length is below 1 (and nonzero, which the fixed-point
    /// grid can produce). The loop is cut off after a generous number
    /// of draws, falling back to a fixed interior vector.
    pub fn random_in_unit_sphere() -> (r: Vec3)
        ensures
            0 < dotw(r, r) < SCALE * SCALE,
            in_box(r, SCALE as int),
    {
        let mut tries: u32 = 0;
        while tries < 1000
            decreases 1000 - tries,
        {
            let v = Vec3::random_range(-SCALE, SCALE);
            let w: i128 = v.dot_wide(v);
            if 0 < w && w < (SCALE as i128) * (SCALE as i128) {
                return v;
            }
            tries = tries + 1;
        }
        let f = Vec3 { x: 0, y: 0, z: 32768 };
        proof {
            assert(dotw(f, f) == 32768 * 32768);
        }
        f
    }

    /// A near-unit vector in a uniformly random direction: the
    /// normalization of a nonzero draw from the unit ball, so its
    /// squared length lies between a quarter and three whatever the
    /// draw was.
    pub fn random_unit_vector() -> (r: Vec3)
        ensures
            in_box(r, SCALE as int),
            4 * dotw(r, r) >= SCALE * SCALE,
            dotw(r, r) <= 3 * (SCALE * SCALE),
            exists|w: Vec3| 0 < dotw(w, w) < SCALE * SCALE && r == unit_v(w),
    {
        let v = Vec3::random_in_unit_sphere();
        let r = v.unit_vector();
        proof {
            assert(0 < dotw(v, v) < SCALE * SCALE && r == unit_v(v));
        }
        r
    }

    /// Snell refraction of v (a unit direction) through a surface
    /// with outward unit normal n and refraction ratio eta_in/eta_out.
    /// The result is exactly [`refract_num`]; total internal
    /// reflection is the caller's decision (the parallel term uses
    /// |1 - |perp|^2| as the model does).
    pub fn refract(v: Vec3, n: Vec3, etai_over_etat: i64) -> (r: Vec3)
        requires
            in_box(v, 2 * SCALE as int),
            in_box(n, 2 * SCALE as int),
            0 < etai_over_etat <= 16 * SCALE as int,
        ensures
            (r.x as int, r.y as int, r.z as int) == refract_num(v, n, etai_over_etat as int),
            r == refract_v(v, n, etai_over_etat as int),
            in_box(r, COORD_MAX as int),
    {
        let dw: i128 = Vec3::dot_wide(v, n);
        proof {
            assert(-12 * (SCALE * SCALE as int) <= dw <= 12 * (SCALE * SCALE as int))
                by (nonlinear_arith)
                requires
                    in_box(v, 2 * SCALE as int),
                    in_box(n, 2 * SCALE as int),
                    dw == dotw(v, n),
            ;
            lemma_fdiv_in(-(dw as int), SCALE as int, 12 * (SCALE * SCALE as int));
        }
        let cos0: i128 = utility::div_floor(-dw, SCALE as i128);
        let cos: i64 = if cos0 > (SCALE as i128) {
            SCALE
        } else {
            cos0 as i64
        };
        let px: i64 = refract_perp_comp(v.x, n.x, cos, etai_over_etat);
        let py: i64 = refract_perp_comp(v.y, n.y, cos, etai_over_etat);
        let pz: i64 = refract_perp_comp(v.z, n.z, cos, etai_over_etat);
        let perp = Vec3 { x: px, y: py, z: pz };
        let lensq: i128 = perp.dot_wide(perp);
        proof {
            assert(dotw(perp, perp) <= 648675 * (SCALE * SCALE as int)) by (nonlinear_arith)
                requires
                    in_box(perp, 465 * SCALE as int),
                    dotw(perp, perp) == perp.x * perp.x + perp.y * perp.y + perp.z * perp.z,
            ;
            assert(dotw(perp, perp) >= 0) by (nonlinear_arith)
                requires
                    dotw(perp, perp) == perp.x * perp.x + perp.y * perp.y + perp.z * perp.z,
            ;
        }
        let k: i128 = (SCALE as i128) * (SCALE as i128) - lensq;
        let kk: i128 = if k < 0 {
            -k
        } else {
            k
        };
        let s: u128 = utility::isqrt(kk as u128);
        proof {
            assert((s as int) * (s as int) <= kk as int);
            assert(s as int <= 806 * SCALE as int) by (nonlinear_arith)
                requires
                    0 <= s,
                    (s as int) * (s as int) <= kk as int,
                    kk as int <= 648676 * (SCALE * SCALE as int),
            ;
        }
        let sx: i64 = par_comp(s as i64, n.x);
        let sy: i64 = par_comp(s as i64, n.y);
        let sz: i64 = par_comp(s as i64, n.z);
        Vec3 { x: px - sx, y: py - sy, z: pz - sz }
    }
}

/// One component of the perpendicular refraction term.
fn refract_perp_comp(vc: i64, nc: i64, cos: i64, ratio: i64) -> (r: i64)
    requires
        -2 * SCALE as int <= vc <= 2 * SCALE as int,
        -2 * SCALE as int <= nc <= 2 * SCALE as int,
        -13 * SCALE as int <= cos <= SCALE as int,
        0 < ratio <= 16 * SCALE as int,
    ensures
        r == refract_perp_c(vc as int, nc as int, cos as int, ratio as int),
        -465 * SCALE as int <= r <= 465 * SCALE as int,
{
    proof {
        lemma_fdiv_prod_in(cos as int, nc as int, SCALE as int, 13 * SCALE as int, 2 * SCALE as int);
        assert((13 * SCALE as int) * (2 * SCALE as int) == 26 * (SCALE * SCALE as int))
            by (nonlinear_arith);
    }
    let inner0: i128 = utility::div_floor((cos as i128) * (nc as i128), SCALE as i128);
    let inner: i128 = (vc as i128) + inner0;
    proof {
        lemma_fdiv_prod_in(ratio as int, inner as int, SCALE as int, 16 * SCALE as int, 29
            * SCALE as int);
        assert((16 * SCALE as int) * (29 * SCALE as int) == 464 * (SCALE * SCALE as int))
            by (nonlinear_arith);
    }
    let q: i128 = utility::div_floor((ratio as i128) * inner, SCALE as i128);
    q as i64
}

/// One component of the parallel refraction term: s * nc / SCALE.
fn par_comp(s: i64, nc: i64) -> (r: i64)
    requires
        0 <= s <= 806 * SCALE as int,
        -2 * SCALE as int <= nc <= 2 * SCALE as int,
    ensures
        r == fdiv(s * nc, SCALE as int),
        -1613 * SCALE as int <= r <= 1612 * SCALE as int,
{
    proof {
        lemma_fdiv_prod_in(s as int, nc as int, SCALE as int, 806 * SCALE as int, 2 * SCALE as int);
        assert((806 * SCALE as int) * (2 * SCALE as int) == 1612 * (SCALE * SCALE as int))
            by (nonlinear_arith);
    }
    let q: i128 = utility::div_floor((s as i128) * (nc as i128), SCALE as i128);
    q as i64
}

/// One component of a fixed-point product: fdiv(a * b, SCALE).
fn mul_comp(a: i64, b: i64) -> (r: i64)
    requires
        -COORD_MAX <= a <= COORD_MAX,
        -COORD_MAX <= b <= COORD_MAX,
    ensures
        r == fdiv(a * b, SCALE as int),
        -COORD_MAX * COORD_MAX <= r <= COORD_MAX * COORD_MAX,
{
    proof {
        lemma_fdiv_prod_in(a as int, b as int, SCALE as int, COORD_MAX as int, COORD_MAX as int);
        lemma_fdiv_nonneg(COORD_MAX as int * COORD_MAX as int, SCALE as int);
    }
    let p: i128 = (a as i128) * (b as i128);
    let q: i128 = utility::div_floor(p, SCALE as i128);
    q as i64
}

/// One component of a fixed-point quotient: fdiv(a * SCALE, t).
fn div_comp(a: i64, t: i64) -> (r: i64)
    requires
        t != 0,
        -COORD_MAX <= a <= COORD_MAX,
        -COORD_MAX <= t <= COORD_MAX,
    ensures
        r == fdiv(a * SCALE, t as int),
{
    proof {
        if t > 0 {
            lemma_fdiv_prod_in(a as int, SCALE as int, t as int, COORD_MAX as int, SCALE as int);
            lemma_fdiv_nonneg(COORD_MAX as int * SCALE as int, t as int);
        } else {
            lemma_fdiv_prod_in(
                -(a as int),
                SCALE as int,
                -(t as int),
                COORD_MAX as int,
                SCALE as int,
            );
            lemma_fdiv_nonneg(COORD_MAX as int * SCALE as int, -(t as int));
            assert(fdiv(a as int * SCALE as int, t as int) == fdiv(
                -(a as int) * SCALE as int,
                -(t as int),
            ));
        }
    }
    let p: i128 = (a as i128) * (SCALE as i128);
    let q: i128 = utility::div_floor(p, t as i128);
    q as i64
}

/// The rounded reflection correction 2 * d * nc / SCALE^2 for one
/// component.
fn reflect_comp(d: i128, nc: i64) -> (r: i64)
    requires
        -12 * (SCALE * SCALE as int) <= d <= 12 * (SCALE * SCALE as int),
        -2 * SCALE as int <= nc <= 2 * SCALE as int,
    ensures
        r == fdiv(2 * d * nc, SCALE * SCALE),
        -49 * SCALE as int <= r <= 48 * SCALE as int,
{
    proof {
        lemma_fdiv_prod_in(
            2 * d,
            nc as int,
            SCALE * SCALE,
            24 * (SCALE * SCALE as int),
            2 * SCALE as int,
        );
        assert(24 * (SCALE * SCALE as int) * (2 * SCALE as int) == 48 * SCALE * SCALE * SCALE)
            by (nonlinear_arith);
        assert(fdiv(48 * SCALE * SCALE * SCALE, SCALE * SCALE) == 48 * SCALE as int) by {
            lemma_div_multiples_vanish(48 * SCALE as int, SCALE * SCALE);
            assert(48 * SCALE * SCALE * SCALE == (SCALE * SCALE) * (48 * SCALE as int))
                by (nonlinear_arith);
        }
    }
    let p: i128 = 2 * d * (nc as i128);
    let q: i128 = utility::div_floor(p, (SCALE as i128) * (SCALE as i128));
    q as i64
}

/// A product of two boxed components stays within COORD_MAX^2.
proof fn lemma_prod_box(a: int, b: int)
    requires
        -COORD_MAX <= a <= COORD_MAX,
        -COORD_MAX <= b <= COORD_MAX,
    ensures
        -(COORD_MAX as int) * (COORD_MAX as int) <= a * b <= (COORD_MAX as int) * (COORD_MAX as int),
{
    assert(-(COORD_MAX as int) * (COORD_MAX as int) <= a * b <= (COORD_MAX as int) * (
    COORD_MAX as int)) by (nonlinear_arith)
        requires
            -COORD_MAX <= a <= COORD_MAX,
            -COORD_MAX <= b <= COORD_MAX,
    ;
}

/// The self dot product is a sum of squares: nonnegative, and at most
/// 3 * COORD_MAX^2 for a boxed vector.
proof fn lemma_dotw_self_bounds(v: Vec3)
    requires
        in_box(v, COORD_MAX as int),
    ensures
        0 <= dotw(v, v) <= 3 * (COORD_MAX as int) * (COORD_MAX as int),
{
    assert(0 <= dotw(v, v) <= 3 * (COORD_MAX as int) * (COORD_MAX as int)) by (nonlinear_arith)
        requires
            in_box(v, COORD_MAX as int),
            dotw(v, v) == v.x * v.x + v.y * v.y + v.z * v.z,
    ;
}

/// One component of a unit vector: |c| <= len gives the scaled
/// quotient a value in [-SCALE, SCALE].
proof fn lemma_unit_comp(c: int, w: int, len: int)
    requires
        c * c <= w,
        w >= 1,
        is_sqrt_floor(w, len),
    ensures
        len >= 1,
        -SCALE as int <= fdiv(c * SCALE, len) <= SCALE as int,
{
    assert(len >= 1) by (nonlinear_arith)
        requires
            is_sqrt_floor(w, len),
            w >= 1,
    ;
    assert(-len <= c <= len) by (nonlinear_arith)
        requires
            c * c <= w,
            w < (len + 1) * (len + 1),
            len >= 0,
    ;
    assert(-len * SCALE <= c * SCALE <= len * SCALE) by (nonlinear_arith)
        requires
            -len <= c <= len,
    ;
    lemma_div_multiples_vanish(SCALE as int, len);
    assert(len * (SCALE as int) == (SCALE as int) * len);
    lemma_fdiv_ordered(c * SCALE, len * SCALE, len);
    lemma_fdiv_ordered(-len * SCALE, c * SCALE, len);
    assert(fdiv(len * SCALE, len) == SCALE as int);
    assert(-(len * SCALE) == (-SCALE as int) * len) by (nonlinear_arith);
    lemma_div_multiples_vanish(-SCALE as int, len);
    assert(fdiv(-len * SCALE, len) == -SCALE as int);
}

/// A component carrying at least a third of the squared norm
/// normalizes to at least half a unit in magnitude.
proof fn lemma_unit_comp_large(c: int, w: int, len: int)
    requires
        3 * (c * c) >= w,
        w >= 1,
        c != 0,
        is_sqrt_floor(w, len),
    ensures
        4 * (fdiv(c * SCALE, len) * fdiv(c * SCALE, len)) >= SCALE * SCALE,
{
    assert(len >= 1) by (nonlinear_arith)
        requires
            is_sqrt_floor(w, len),
            w >= 1,
    ;
    assert(3 * (c * c) >= len * len);
    let u = fdiv(c * SCALE, len);
    utility::lemma_fdiv_bracket(c * SCALE, len);
    assert(2 * c >= len + 1 || 2 * c <= -(len + 1)) by (nonlinear_arith)
        requires
            3 * (c * c) >= len * len,
            c != 0,
            len >= 1,
    ;
    if c > 0 {
        assert(u * len >= c * SCALE - len + 1) by (nonlinear_arith)
            requires
                u * len <= c * SCALE < (u + 1) * len,
        ;
        assert(2 * (c * SCALE) >= len * SCALE + SCALE);
        assert(2 * (u * len) >= len * SCALE + SCALE - 2 * len + 2);
        assert(2 * (u * len) > (SCALE - 2) * len);
        assert(2 * u > SCALE - 2) by (nonlinear_arith)
            requires
                2 * (u * len) > (SCALE - 2) * len,
                len >= 1,
        ;
        assert(u >= 32768);
        assert(4 * (u * u) >= SCALE * SCALE) by (nonlinear_arith)
            requires
                u >= 32768,
        ;
    } else {
        assert(u * len <= c * SCALE);
        assert(2 * (c * SCALE) <= -(len * SCALE) - SCALE);
        assert(2 * (u * len) < -(SCALE * len));
        assert(2 * u < -SCALE) by (nonlinear_arith)
            requires
                2 * (u * len) < -(SCALE * len),
                len >= 1,
        ;
        assert(u <= -32768);
        assert(4 * (u * u) >= SCALE * SCALE) by (nonlinear_arith)
            requires
                u <= -32768,
        ;
    }
}

/// The squared length of a normalized vector lies between a quarter
/// and three: one component carries at least a third of the squared
/// norm and normalizes to at least half a unit, and every component
/// stays within one unit.
proof fn lemma_unit_v_norm(v: Vec3)
    requires
        in_box(v, COORD_MAX as int),
        dotw(v, v) >= 1,
    ensures
        4 * dotw(unit_v(v), unit_v(v)) >= SCALE * SCALE,
        dotw(unit_v(v), unit_v(v)) <= 3 * (SCALE * SCALE),
{
    let w = dotw(v, v);
    lemma_sqrt_floor_exists(w);
    let len = sqrt_floor(w);
    let u = unit_v(v);
    lemma_sq_le_dotw(v);
    lemma_unit_comp(v.x as int, w, len);
    lemma_unit_comp(v.y as int, w, len);
    lemma_unit_comp(v.z as int, w, len);
    assert(u.x == fdiv(v.x * SCALE, len) && u.y == fdiv(v.y * SCALE, len) && u.z == fdiv(
        v.z * SCALE,
        len,
    ));
    assert(dotw(u, u) <= 3 * (SCALE * SCALE)) by (nonlinear_arith)
        requires
            -SCALE as int <= u.x <= SCALE as int,
            -SCALE as int <= u.y <= SCALE as int,
            -SCALE as int <= u.z <= SCALE as int,
            dotw(u, u) == u.x * u.x + u.y * u.y + u.z * u.z,
    ;
    if v.x * v.x >= v.y * v.y && v.x * v.x >= v.z * v.z {
        assert(3 * (v.x * v.x) >= w && v.x != 0) by (nonlinear_arith)
            requires
                v.x * v.x >= v.y * v.y,
                v.x * v.x >= v.z * v.z,
                w == v.x * v.x + v.y * v.y + v.z * v.z,
                w >= 1,
        ;
        lemma_unit_comp_large(v.x as int, w, len);
        assert(4 * dotw(u, u) >= SCALE * SCALE) by (nonlinear_arith)
            requires
                4 * ((u.x as int) * (u.x as int)) >= SCALE * SCALE,
                dotw(u, u) == u.x * u.x + u.y * u.y + u.z * u.z,
        ;
    } else if v.y * v.y >= v.x * v.x && v.y * v.y >= v.z * v.z {
        assert(3 * (v.y * v.y) >= w && v.y != 0) by (nonlinear_arith)
            requires
                v.y * v.y >= v.x * v.x,
                v.y * v.y >= v.z * v.z,
                w == v.x * v.x + v.y * v.y + v.z * v.z,
                w >= 1,
        ;
        lemma_unit_comp_large(v.y as int, w, len);
        assert(4 * dotw(u, u) >= SCALE * SCALE) by (nonlinear_arith)
            requires
                4 * ((u.y as int) * (u.y as int)) >= SCALE * SCALE,
                dotw(u, u) == u.x * u.x + u.y * u.y + u.z * u.z,
        ;
    } else {
        assert(v.z * v.z >= v.x * v.x && v.z * v.z >= v.y * v.y);
        assert(3 * (v.z * v.z) >= w && v.z != 0) by (nonlinear_arith)
            requires
                v.z * v.z >= v.x * v.x,
                v.z * v.z >= v.y * v.y,
                w == v.x * v.x + v.y * v.y + v.z * v.z,
                w >= 1,
        ;
        lemma_unit_comp_large(v.z as int, w, len);
        assert(4 * dotw(u, u) >= SCALE * SCALE) by (nonlinear_arith)
            requires
                4 * ((u.z as int) * (u.z as int)) >= SCALE * SCALE,
                dotw(u, u) == u.x * u.x + u.y * u.y + u.z * u.z,
        ;
    }
}

/// Each squared component is at most the whole sum of squares.
proof fn lemma_sq_le_dotw(v: Vec3)
    ensures
        v.x * v.x <= dotw(v, v),
        v.y * v.y <= dotw(v, v),
        v.z * v.z <= dotw(v, v),
{
    assert(v.x * v.x <= dotw(v, v) && v.y * v.y <= dotw(v, v) && v.z * v.z <= dotw(v, v))
        by (nonlinear_arith)
        requires
            dotw(v, v) == v.x * v.x + v.y * v.y + v.z * v.z,
    ;
}

/// The rounded reflection component sits within one rounding step of
/// the exact reflection reflect_num.
proof fn lemma_reflect_tie(vc: int, nc: int, d: int, e: int)
    requires
        e == fdiv(2 * d * nc, SCALE * SCALE),
    ensures
        0 <= SCALE * SCALE * (vc - e) - (SCALE * SCALE * vc - 2 * d * nc) < SCALE * SCALE,
{
    utility::lemma_fdiv_bracket(2 * d * nc, SCALE * SCALE);
    assert(0 <= SCALE * SCALE * (vc - e) - (SCALE * SCALE * vc - 2 * d * nc) < SCALE * SCALE)
        by (nonlinear_arith)
        requires
            e * (SCALE * SCALE) <= 2 * d * nc < (e + 1) * (SCALE * SCALE),
    ;
}

} // verus!
