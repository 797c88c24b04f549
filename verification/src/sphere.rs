//! Spheres, and the quadratic ray-sphere intersection.
//!
//! The intersection solves |origin + t*dir - center|^2 = radius^2
//! with the half-b form: a = |dir|^2, half_b = dir . (origin-center),
//! c = |origin-center|^2 - radius^2, discriminant = half_b^2 - a*c.
//! [`sphere_hit`] is the exact fixed-point description of the whole
//! computation, rounding included; `hit` returns precisely that.
//! A negative radius flips the outward normal and so represents the
//! inner surface of a hollow shell; it is deliberate and supported.

use vstd::prelude::*;
use crate::utility;
use crate::utility::{
    fdiv, sqrt_floor, is_sqrt_floor, lemma_sqrt_floor_exists, lemma_fdiv_in, lemma_fdiv_ordered,
    SCALE, COORD_MAX,
};
use crate::vec3::{Vec3, dotw, in_box};
use crate::ray::{Ray, ray_wf, at_c};
use crate::hittable::{HitRecord, hit_record_ok};
use crate::material::{MaterialKind, material_wf};

verus! {

/// A sphere that may stand in a scene: boxed center, nonzero boxed
/// radius, valid material.
pub open spec fn sphere_wf(s: Sphere) -> bool {
    &&& in_box(s.center, COORD_MAX as int)
    &&& -COORD_MAX <= s.radius <= COORD_MAX
    &&& s.radius != 0
    &&& material_wf(s.material)
}

#[derive(Clone, Copy)]
pub struct Sphere {
    pub center: Vec3,
    pub radius: i64,
    pub material: MaterialKind,
}

/// The quadratic coefficient a = |dir|^2 (scale SCALE^2).
pub open spec fn q_a(r: Ray) -> int {
    dotw(r.dir, r.dir)
}

/// The half linear coefficient dir . (origin - center).
pub open spec fn q_hb(s: Sphere, r: Ray) -> int {
    r.dir.x * (r.origin.x - s.center.x) + r.dir.y * (r.origin.y - s.center.y) + r.dir.z * (
    r.origin.z - s.center.z)
}

/// The constant coefficient |origin - center|^2 - radius^2.
pub open spec fn q_c(s: Sphere, r: Ray) -> int {
    (r.origin.x - s.center.x) * (r.origin.x - s.center.x) + (r.origin.y - s.center.y) * (
    r.origin.y - s.center.y) + (r.origin.z - s.center.z) * (r.origin.z - s.center.z) - s.radius
        * s.radius
}

/// The discriminant of the half-b quadratic.
pub open spec fn q_disc(s: Sphere, r: Ray) -> int {
    q_hb(s, r) * q_hb(s, r) - q_a(r) * q_c(s, r)
}

/// The smaller root, in fixed point: (-half_b - sqrt(disc)) / a.
pub open spec fn root1(s: Sphere, r: Ray) -> int {
    fdiv((-q_hb(s, r) - sqrt_floor(q_disc(s, r))) * SCALE, q_a(r))
}

/// The larger root: (-half_b + sqrt(disc)) / a.
pub open spec fn root2(s: Sphere, r: Ray) -> int {
    fdiv((-q_hb(s, r) + sqrt_floor(q_disc(s, r))) * SCALE, q_a(r))
}

/// The intersection point at parameter t, componentwise.
pub open spec fn hit_point(s: Sphere, r: Ray, t: int) -> (int, int, int) {
    (
        at_c(r.origin.x as int, r.dir.x as int, t),
        at_c(r.origin.y as int, r.dir.y as int, t),
        at_c(r.origin.z as int, r.dir.z as int, t),
    )
}

/// The outward normal at parameter t: (point - center) / radius,
/// componentwise; a negative radius flips it toward the inside.
pub open spec fn hit_normal(s: Sphere, r: Ray, t: int) -> (int, int, int) {
    let p = hit_point(s, r, t);
    (
        fdiv((p.0 - s.center.x) * SCALE, s.radius as int),
        fdiv((p.1 - s.center.y) * SCALE, s.radius as int),
        fdiv((p.2 - s.center.z) * SCALE, s.radius as int),
    )
}

/// A root is taken only strictly inside the queried interval.
pub open spec fn in_range(t_min: int, t_max: int, t: int) -> bool {
    t_min < t < t_max
}

/// The accepted root, if any: the smaller root when in range, else
/// the larger, else nothing.
pub open spec fn chosen_root(s: Sphere, r: Ray, t_min: int, t_max: int) -> Option<int> {
    if in_range(t_min, t_max, root1(s, r)) {
        Some(root1(s, r))
    } else if in_range(t_min, t_max, root2(s, r)) {
        Some(root2(s, r))
    } else {
        None
    }
}

/// The hit data at t stays on the fixed-point grid: the point lies in
/// the world box and the normal is near unit length.
pub open spec fn representable(s: Sphere, r: Ray, t: int) -> bool {
    let p = hit_point(s, r, t);
    let n = hit_normal(s, r, t);
    &&& -COORD_MAX <= p.0 <= COORD_MAX
    &&& -COORD_MAX <= p.1 <= COORD_MAX
    &&& -COORD_MAX <= p.2 <= COORD_MAX
    &&& -2 * SCALE as int <= n.0 <= 2 * SCALE as int
    &&& -2 * SCALE as int <= n.1 <= 2 * SCALE as int
    &&& -2 * SCALE as int <= n.2 <= 2 * SCALE as int
    &&& 1 <= n.0 * n.0 + n.1 * n.1 + n.2 * n.2
}

/// The record reported for an accepted, representable root: the point
/// on the ray, the outward normal flipped to oppose the ray, and the
/// sphere's material.
pub open spec fn mk_hit(s: Sphere, r: Ray, t: int) -> HitRecord {
    let p = hit_point(s, r, t);
    let n = hit_normal(s, r, t);
    let ff = r.dir.x * n.0 + r.dir.y * n.1 + r.dir.z * n.2 < 0;
    HitRecord::Hit {
        point: Vec3 { x: p.0 as i64, y: p.1 as i64, z: p.2 as i64 },
        t: t as i64,
        normal: if ff {
            Vec3 { x: n.0 as i64, y: n.1 as i64, z: n.2 as i64 }
        } else {
            Vec3 { x: (-n.0) as i64, y: (-n.1) as i64, z: (-n.2) as i64 }
        },
        front_face: ff,
        material: s.material,
    }
}

/// What `Sphere::hit` returns, exactly: Miss for a degenerate
/// direction, a negative discriminant, no root in range, or a hit
/// that leaves the representable world; otherwise the record at the
/// chosen root.
pub open spec fn sphere_hit(s: Sphere, r: Ray, t_min: int, t_max: int) -> HitRecord {
    if q_a(r) <= 0 {
        HitRecord::Miss
    } else if q_disc(s, r) < 0 {
        HitRecord::Miss
    } else {
        match chosen_root(s, r, t_min, t_max) {
            Some(t) => if representable(s, r, t) {
                mk_hit(s, r, t)
            } else {
                HitRecord::Miss
            },
            None => HitRecord::Miss,
        }
    }
}

impl Sphere {
    pub fn new(center: Vec3, radius: i64, material: MaterialKind) -> (r: Sphere)
        requires
            in_box(center, COORD_MAX as int),
            -COORD_MAX <= radius <= COORD_MAX,
            radius != 0,
            material_wf(material),
        ensures
            r.center == center && r.radius == radius && r.material == material,
            sphere_wf(r),
    {
        Sphere { center, radius, material }
    }

    /// The nearest intersection with parameter strictly inside
    /// (t_min, t_max), exactly as [`sphere_hit`] describes it.
    pub fn hit(&self, ray: &Ray, t_min: i64, t_max: i64) -> (rec: HitRecord)
        requires
            sphere_wf(*self),
            ray_wf(*ray),
        ensures
            rec == sphere_hit(*self, *ray, t_min as int, t_max as int),
            hit_record_ok(*ray, rec, t_min as int, t_max as int),
    {
        let oc = Vec3 {
            x: ray.origin.x - self.center.x,
            y: ray.origin.y - self.center.y,
            z: ray.origin.z - self.center.z,
        };
        let a: i128 = wide_dot(ray.dir, ray.dir);
        let hb: i128 = wide_dot(ray.dir, oc);
        proof {
            assert(a == q_a(*ray) && hb == q_hb(*self, *ray));
            assert(a >= 0 && a <= 864691128455135232) by (nonlinear_arith)
                requires
                    in_box(ray.dir, COORD_MAX as int),
                    a == dotw(ray.dir, ray.dir),
                    COORD_MAX == 536870912,
            ;
            assert(-1729382256910270464 <= hb <= 1729382256910270464) by (nonlinear_arith)
                requires
                    in_box(ray.dir, COORD_MAX as int),
                    in_box(oc, 2 * COORD_MAX as int),
                    hb == dotw(ray.dir, oc),
                    COORD_MAX == 536870912,
            ;
            assert(0 <= (self.radius as int) * (self.radius as int) <= 288230376151711744)
                by (nonlinear_arith)
                requires
                    -COORD_MAX <= self.radius <= COORD_MAX,
                    COORD_MAX == 536870912,
            ;
        }
        if a == 0 {
            return HitRecord::Miss;
        }
        let rr: i128 = (self.radius as i128) * (self.radius as i128);
        let cq: i128 = wide_dot(oc, oc) - rr;
        proof {
            assert(cq == q_c(*self, *ray));
            assert(-3746994889972252672 <= cq <= 3746994889972252672);
            assert(0 <= hb * hb <= 2990762990516060714033565885630775296) by (nonlinear_arith)
                requires
                    -1729382256910270464 <= hb <= 1729382256910270464,
            ;
            assert(-3239993239725732440203029709433339904 <= a * cq
                <= 3239993239725732440203029709433339904) by (nonlinear_arith)
                requires
                    0 <= a <= 864691128455135232,
                    -3746994889972252672 <= cq <= 3746994889972252672,
            ;
        }
        let disc: i128 = hb * hb - a * cq;
        if disc < 0 {
            return HitRecord::Miss;
        }
        let sq: u128 = utility::isqrt(disc as u128);
        proof {
            assert(sq as int <= 2600000000000000000) by (nonlinear_arith)
                requires
                    0 <= sq,
                    (sq as int) * (sq as int) <= disc as int,
                    disc as int <= 6230756230241793154236595595064115200,
            ;
            lemma_root_fits(-(hb as int) - sq as int, a as int, 4400000000000000000);
            lemma_root_fits(-(hb as int) + sq as int, a as int, 4400000000000000000);
        }
        let t1: i128 = utility::div_floor(
            (-hb - (sq as i128)) * (SCALE as i128),
            a,
        );
        let lo: i128 = t_min as i128;
        let hi: i128 = t_max as i128;
        let root: i128;
        if lo < t1 && t1 < hi {
            root = t1;
        } else {
            let t2: i128 = utility::div_floor(
                (-hb + (sq as i128)) * (SCALE as i128),
                a,
            );
            if lo < t2 && t2 < hi {
                root = t2;
            } else {
                return HitRecord::Miss;
            }
        }
        proof {
            assert(chosen_root(*self, *ray, t_min as int, t_max as int) == Some(root as int));
            assert(-4951760157141521099596496896 <= root * (ray.dir.x as int)
                <= 4951760157141521099596496896 && -4951760157141521099596496896 <= root * (
            ray.dir.y as int) <= 4951760157141521099596496896 && -4951760157141521099596496896
                <= root * (ray.dir.z as int) <= 4951760157141521099596496896) by (nonlinear_arith)
                requires
                    -9223372036854775808 <= root <= 9223372036854775808,
                    in_box(ray.dir, COORD_MAX as int),
                    COORD_MAX == 536870912,
            ;
        }
        let px: i128 = (ray.origin.x as i128) + utility::div_floor(
            root * (ray.dir.x as i128),
            SCALE as i128,
        );
        let py: i128 = (ray.origin.y as i128) + utility::div_floor(
            root * (ray.dir.y as i128),
            SCALE as i128,
        );
        let pz: i128 = (ray.origin.z as i128) + utility::div_floor(
            root * (ray.dir.z as i128),
            SCALE as i128,
        );
        let cm: i128 = COORD_MAX as i128;
        if px < -cm || px > cm || py < -cm || py > cm || pz < -cm || pz > cm {
            return HitRecord::Miss;
        }
        let nx: i128 = utility::div_floor((px - (self.center.x as i128)) * (SCALE as i128), self.radius as i128);
        let ny: i128 = utility::div_floor((py - (self.center.y as i128)) * (SCALE as i128), self.radius as i128);
        let nz: i128 = utility::div_floor((pz - (self.center.z as i128)) * (SCALE as i128), self.radius as i128);
        let ns: i128 = 2 * (SCALE as i128);
        if nx < -ns || nx > ns || ny < -ns || ny > ns || nz < -ns || nz > ns {
            return HitRecord::Miss;
        }
        proof {
            assert(nx * nx + ny * ny + nz * nz <= 12 * (SCALE * SCALE as int) && nx * nx + ny * ny
                + nz * nz >= 0 && 0 <= nx * nx && 0 <= ny * ny && 0 <= nz * nz)
                by (nonlinear_arith)
                requires
                    -2 * (SCALE as int) <= nx <= 2 * (SCALE as int),
                    -2 * (SCALE as int) <= ny <= 2 * (SCALE as int),
                    -2 * (SCALE as int) <= nz <= 2 * (SCALE as int),
            ;
        }
        let nsq: i128 = nx * nx + ny * ny + nz * nz;
        if nsq < 1 {
            return HitRecord::Miss;
        }
        proof {
            lemma_dir_dot_bound(ray.dir.x as int, ray.dir.y as int, ray.dir.z as int, nx as int, ny as int, nz as int);
        }
        let dn: i128 = (ray.dir.x as i128) * nx + (ray.dir.y as i128) * ny + (ray.dir.z as i128)
            * nz;
        let ff: bool = dn < 0;
        let pv = Vec3 { x: px as i64, y: py as i64, z: pz as i64 };
        let nv = if ff {
            Vec3 { x: nx as i64, y: ny as i64, z: nz as i64 }
        } else {
            Vec3 { x: (-nx) as i64, y: (-ny) as i64, z: (-nz) as i64 }
        };
        proof {
            assert(representable(*self, *ray, root as int));
            if !ff {
                lemma_dot_neg_flip(ray.dir.x as int, ray.dir.y as int, ray.dir.z as int, nx as int, ny as int, nz as int);
            }
        }
        HitRecord::Hit { point: pv, t: root as i64, normal: nv, front_face: ff, material: self.material }
    }
}

/// Tightening the far end of the interval filters the result: the
/// query over (t_min, ta) with ta <= tb returns the hit of the query
/// over (t_min, tb) when its parameter beats ta, and Miss otherwise.
/// This is what lets the list scan shrink t_max to the closest hit
/// found so far.
pub proof fn lemma_sphere_hit_tighten(s: Sphere, r: Ray, t_min: int, tb: int, ta: int)
    requires
        ta <= tb,
        i64::MIN <= t_min,
        tb <= i64::MAX,
    ensures
        sphere_hit(s, r, t_min, ta) == (match sphere_hit(s, r, t_min, tb) {
            HitRecord::Hit { t, .. } => if t < ta {
                sphere_hit(s, r, t_min, tb)
            } else {
                HitRecord::Miss
            },
            HitRecord::Miss => HitRecord::Miss,
        }),
{
    if q_a(r) > 0 && q_disc(s, r) >= 0 {
        lemma_sqrt_floor_exists(q_disc(s, r));
        let sq = sqrt_floor(q_disc(s, r));
        assert((-q_hb(s, r) - sq) * SCALE <= (-q_hb(s, r) + sq) * SCALE);
        lemma_fdiv_ordered((-q_hb(s, r) - sq) * SCALE, (-q_hb(s, r) + sq) * SCALE, q_a(r));
        assert(root1(s, r) <= root2(s, r));
    }
}

/// A reported parameter always lies strictly inside the queried
/// interval.
pub proof fn lemma_sphere_hit_t_range(s: Sphere, r: Ray, t_min: int, t_max: int)
    requires
        i64::MIN <= t_min,
        t_max <= i64::MAX,
    ensures
        match sphere_hit(s, r, t_min, t_max) {
            HitRecord::Hit { t, .. } => t_min < t < t_max,
            HitRecord::Miss => true,
        },
{
}

/// The accepted root solves the quadratic up to the remainder of the
/// integer square root: writing hb, a, c for the coefficients,
/// D for the discriminant, s for its integer square root, and
/// u = -hb +- s for either root numerator, the scaled quadratic
/// u^2 + 2*hb*u + a*c equals s^2 - D, which lies in (-2s-1, 0].
/// This is the fixed-point form of "the hit point lies on the
/// sphere": the defect comes only from rounding the square root, and
/// the point itself is by construction ray.at(t).
pub proof fn lemma_root_on_sphere(s: Sphere, r: Ray)
    requires
        q_disc(s, r) >= 0,
    ensures
        ({
            let hb = q_hb(s, r);
            let ac = q_a(r) * q_c(s, r);
            let sq = sqrt_floor(q_disc(s, r));
            let u1 = -hb - sq;
            let u2 = -hb + sq;
            &&& u1 * u1 + 2 * hb * u1 + ac == sq * sq - q_disc(s, r)
            &&& u2 * u2 + 2 * hb * u2 + ac == sq * sq - q_disc(s, r)
            &&& -(2 * sq + 1) < sq * sq - q_disc(s, r) <= 0
        }),
{
    lemma_sqrt_floor_exists(q_disc(s, r));
    let hb = q_hb(s, r);
    let ac = q_a(r) * q_c(s, r);
    let d = q_disc(s, r);
    let sq = sqrt_floor(d);
    assert(d == hb * hb - ac);
    assert((-hb - sq) * (-hb - sq) + 2 * hb * (-hb - sq) + ac == sq * sq - (hb * hb - ac))
        by (nonlinear_arith);
    assert((-hb + sq) * (-hb + sq) + 2 * hb * (-hb + sq) + ac == sq * sq - (hb * hb - ac))
        by (nonlinear_arith);
    assert(-(2 * sq + 1) < sq * sq - d <= 0) by (nonlinear_arith)
        requires
            0 <= sq,
            sq * sq <= d < (sq + 1) * (sq + 1),
    ;
}

/// How far the returned fixed-point parameter t sits from a true
/// root of the quadratic a*x^2 + 2*hb*x + c: evaluating the
/// quadratic at t/SCALE (everything scaled to stay integral) leaves
/// exactly (s*SCALE + rho)^2 - D*SCALE^2, where rho < a is the
/// remainder of the final division and s^2 <= D < (s+1)^2 is the
/// integer square root of the discriminant D. Both remainders vanish
/// when the root is exact on the grid, and the hit point itself is
/// by construction the ray evaluated at t.
pub proof fn lemma_root_defect(a: int, hb: int, c: int, s: int, t: int)
    requires
        a >= 1,
        hb * hb - a * c >= 0,
        is_sqrt_floor(hb * hb - a * c, s),
        t == fdiv((-hb - s) * SCALE, a),
    ensures
        ({
            let rho = (-hb - s) * SCALE - a * t;
            &&& 0 <= rho < a
            &&& a * (a * t * t + 2 * hb * SCALE * t + c * SCALE * SCALE) == (s * SCALE + rho) * (
            s * SCALE + rho) - (hb * hb - a * c) * SCALE * SCALE
        }),
{
    let u = -hb - s;
    let rho = u * SCALE - a * t;
    utility::lemma_fdiv_bracket(u * SCALE, a);
    assert(0 <= rho < a) by (nonlinear_arith)
        requires
            rho == u * SCALE - a * t,
            t * a <= u * SCALE < (t + 1) * a,
    ;
    assert(a * t + hb * SCALE == -(s * SCALE + rho)) by (nonlinear_arith)
        requires
            rho == u * SCALE - a * t,
            u == -hb - s,
    ;
    assert(a * (a * t * t + 2 * hb * SCALE * t + c * SCALE * SCALE) == (a * t + hb * SCALE) * (a
        * t + hb * SCALE) - (hb * hb - a * c) * SCALE * SCALE) by (nonlinear_arith);
    assert((a * t + hb * SCALE) * (a * t + hb * SCALE) == (s * SCALE + rho) * (s * SCALE + rho))
        by (nonlinear_arith)
        requires
            a * t + hb * SCALE == -(s * SCALE + rho),
    ;
}

/// The full-precision dot product for vectors within twice the world
/// box (differences of boxed points).
fn wide_dot(a: Vec3, b: Vec3) -> (r: i128)
    requires
        in_box(a, 2 * COORD_MAX as int),
        in_box(b, 2 * COORD_MAX as int),
    ensures
        r == dotw(a, b),
        -12 * (COORD_MAX as int) * (COORD_MAX as int) <= r <= 12 * (COORD_MAX as int) * (
        COORD_MAX as int),
{
    proof {
        assert(-12 * (COORD_MAX as int) * (COORD_MAX as int) <= dotw(a, b) <= 12 * (
        COORD_MAX as int) * (COORD_MAX as int) && -4 * (COORD_MAX as int) * (COORD_MAX as int)
            <= a.x * b.x <= 4 * (COORD_MAX as int) * (COORD_MAX as int) && -4 * (COORD_MAX as int)
            * (COORD_MAX as int) <= a.y * b.y <= 4 * (COORD_MAX as int) * (COORD_MAX as int) && -4
            * (COORD_MAX as int) * (COORD_MAX as int) <= a.z * b.z <= 4 * (COORD_MAX as int) * (
        COORD_MAX as int)) by (nonlinear_arith)
            requires
                in_box(a, 2 * COORD_MAX as int),
                in_box(b, 2 * COORD_MAX as int),
                dotw(a, b) == a.x * b.x + a.y * b.y + a.z * b.z,
        ;
    }
    (a.x as i128) * (b.x as i128) + (a.y as i128) * (b.y as i128) + (a.z as i128) * (b.z as i128)
}

/// A root numerator scaled by SCALE stays well inside i128, and so
/// does the quotient by a positive a.
proof fn lemma_root_fits(num: int, a: int, m: int)
    requires
        a >= 1,
        0 <= m,
        -m <= num <= m,
    ensures
        -(m * SCALE) <= num * SCALE <= m * SCALE,
        -(m * SCALE) - 1 <= fdiv(num * SCALE, a) <= m * SCALE,
{
    assert(-(m * SCALE) <= num * SCALE <= m * SCALE && 0 <= m * SCALE) by (nonlinear_arith)
        requires
            0 <= m,
            -m <= num <= m,
    ;
    lemma_fdiv_in(num * SCALE, a, m * SCALE);
    utility::lemma_fdiv_nonneg(m * SCALE, a);
}

/// The dot of a boxed direction with a near-unit normal fits easily.
proof fn lemma_dir_dot_bound(dx: int, dy: int, dz: int, nx: int, ny: int, nz: int)
    requires
        -COORD_MAX <= dx <= COORD_MAX,
        -COORD_MAX <= dy <= COORD_MAX,
        -COORD_MAX <= dz <= COORD_MAX,
        -2 * (SCALE as int) <= nx <= 2 * (SCALE as int),
        -2 * (SCALE as int) <= ny <= 2 * (SCALE as int),
        -2 * (SCALE as int) <= nz <= 2 * (SCALE as int),
    ensures
        -6 * (COORD_MAX as int) * (SCALE as int) <= dx * nx + dy * ny + dz * nz <= 6 * (
        COORD_MAX as int) * (SCALE as int),
        -2 * (COORD_MAX as int) * (SCALE as int) <= dx * nx <= 2 * (COORD_MAX as int) * (
        SCALE as int),
        -2 * (COORD_MAX as int) * (SCALE as int) <= dy * ny <= 2 * (COORD_MAX as int) * (
        SCALE as int),
        -2 * (COORD_MAX as int) * (SCALE as int) <= dz * nz <= 2 * (COORD_MAX as int) * (
        SCALE as int),
{
    assert(-6 * (COORD_MAX as int) * (SCALE as int) <= dx * nx + dy * ny + dz * nz <= 6 * (
    COORD_MAX as int) * (SCALE as int) && -2 * (COORD_MAX as int) * (SCALE as int) <= dx * nx <= 2
        * (COORD_MAX as int) * (SCALE as int) && -2 * (COORD_MAX as int) * (SCALE as int) <= dy
        * ny <= 2 * (COORD_MAX as int) * (SCALE as int) && -2 * (COORD_MAX as int) * (
    SCALE as int) <= dz * nz <= 2 * (COORD_MAX as int) * (SCALE as int)) by (nonlinear_arith)
        requires
            -COORD_MAX <= dx <= COORD_MAX,
            -COORD_MAX <= dy <= COORD_MAX,
            -COORD_MAX <= dz <= COORD_MAX,
            -2 * (SCALE as int) <= nx <= 2 * (SCALE as int),
            -2 * (SCALE as int) <= ny <= 2 * (SCALE as int),
            -2 * (SCALE as int) <= nz <= 2 * (SCALE as int),
    ;
}

/// Negating the normal negates the dot with the direction.
proof fn lemma_dot_neg_flip(dx: int, dy: int, dz: int, nx: int, ny: int, nz: int)
    ensures
        dx * (-nx) + dy * (-ny) + dz * (-nz) == -(dx * nx + dy * ny + dz * nz),
        (-nx) * (-nx) + (-ny) * (-ny) + (-nz) * (-nz) == nx * nx + ny * ny + nz * nz,
{
    assert(dx * (-nx) + dy * (-ny) + dz * (-nz) == -(dx * nx + dy * ny + dz * nz))
        by (nonlinear_arith);
    assert((-nx) * (-nx) + (-ny) * (-ny) + (-nz) * (-nz) == nx * nx + ny * ny + nz * nz)
        by (nonlinear_arith);
}

} // verus!
