//! Scattering models: diffuse (Lambertian), metal, and dielectric.
//!
//! Each material consumes an incoming ray and a confirmed hit and
//! either produces a scattered ray with an attenuation color, or
//! absorbs the ray. The sampling of directions is randomized; the
//! deterministic cores (`scatter_with`) take the fresh samples as
//! arguments and state the outgoing ray exactly.

use vstd::prelude::*;
use crate::utility;
use crate::utility::{
    fdiv, sqrt_floor, is_sqrt_floor, lemma_sqrt_floor_exists, lemma_sqrt_floor_unique,
    lemma_fdiv_in, lemma_fdiv_prod_in, lemma_fdiv_nonneg, SCALE, COORD_MAX,
};
use crate::vec3::{
    Vec3, dotw, in_box, vadd, vneg, vscale, unit_v, reflect_v, refract_v, refract_num,
    refract_cos, refract_perp_c,
};
use crate::ray::{Ray, ray_wf};
use crate::hittable::HitRecord;
use vstd::arithmetic::div_mod::{
    lemma_div_of0, lemma_div_multiples_vanish, lemma_div_is_ordered_by_denominator,
    lemma_fundamental_div_mod_converse_div,
};

verus! {

/// A color: components in [0, 1].
pub open spec fn color_wf(c: Vec3) -> bool {
    &&& 0 <= c.x <= SCALE
    &&& 0 <= c.y <= SCALE
    &&& 0 <= c.z <= SCALE
}

/// What scattering requires of its inputs: a well-formed ray with a
/// direction long enough to normalize, and hit data inside the world
/// box with a near-unit normal.
pub open spec fn scatter_pre(ray: Ray, rec: HitRecord) -> bool {
    &&& ray_wf(ray)
    &&& dotw(ray.dir, ray.dir) >= 1
    &&& match rec {
        HitRecord::Hit { point, normal, .. } => {
            &&& in_box(point, COORD_MAX as int)
            &&& in_box(normal, 2 * SCALE as int)
        },
        HitRecord::Miss => true,
    }
}

/// What every scattering outcome satisfies: a scatter event starts at
/// the hit point, carries a valid color, and yields a well-formed
/// ray; a Miss record is never scattered from.
pub open spec fn scatter_ok(rec: HitRecord, out: MaterialData) -> bool {
    match out {
        MaterialData::Scatter { attenuation, scattered } => {
            &&& color_wf(attenuation)
            &&& ray_wf(scattered)
            &&& match rec {
                HitRecord::Hit { point, .. } => scattered.origin == point,
                HitRecord::Miss => false,
            }
        },
        MaterialData::Not => true,
    }
}

/// A scattering outcome that starts at the given point and is safe
/// to trace further.
pub open spec fn scatter_sound(point: Vec3, out: MaterialData) -> bool {
    match out {
        MaterialData::Scatter { attenuation, scattered } => {
            &&& color_wf(attenuation)
            &&& ray_wf(scattered)
            &&& scattered.origin == point
        },
        MaterialData::Not => true,
    }
}

/// The outcome of a scattering event.
#[derive(Clone, Copy)]
pub enum MaterialData {
    Scatter { attenuation: Vec3, scattered: Ray },
    Not,
}

/// The full description of a scattering outcome, up to the fresh
/// random draw: a Miss record is always absorbed; a hit scatters by
/// the variant's rule applied to *some* admissible draw — a diffuse
/// surface adds a near-unit sample to the normal, a metal perturbs
/// the exact reflection by fuzz times a unit-ball sample and keeps
/// the result only if it leaves the surface, a dielectric chooses
/// between reflection and refraction against a uniform draw.
pub open spec fn scatter_post(m: MaterialKind, ray: Ray, rec: HitRecord, out: MaterialData) -> bool {
    match rec {
        HitRecord::Hit { point, normal, front_face, .. } => match m {
            MaterialKind::Lambertian(l) => exists|u: Vec3|
                #![auto]
                in_box(u, SCALE as int) && 4 * dotw(u, u) >= SCALE * SCALE && out == (
                MaterialData::Scatter {
                    attenuation: l.albedo,
                    scattered: Ray { origin: point, dir: lambertian_dir(normal, u) },
                }),
            MaterialKind::Metal(mt) => exists|samp: Vec3|
                #![auto]
                in_box(samp, SCALE as int) && 0 < dotw(samp, samp) < SCALE * SCALE && out == (
                if dotw(metal_dir(ray.dir, normal, mt.fuzz as int, samp), normal) > 0 {
                    MaterialData::Scatter {
                        attenuation: mt.albedo,
                        scattered: Ray {
                            origin: point,
                            dir: metal_dir(ray.dir, normal, mt.fuzz as int, samp),
                        },
                    }
                } else {
                    MaterialData::Not
                }),
            MaterialKind::Dielectric(d) => exists|u: int|
                #![auto]
                0 <= u < SCALE && out == (MaterialData::Scatter {
                    attenuation: Vec3 { x: SCALE, y: SCALE, z: SCALE },
                    scattered: Ray {
                        origin: point,
                        dir: dielectric_dir(ray.dir, normal, d.refraction_index as int, front_face, u),
                    },
                }),
        },
        HitRecord::Miss => out == MaterialData::Not,
    }
}

/// Polymorphic scattering: a material turns an incoming ray and a
/// confirmed hit into an outgoing ray with attenuation, or absorbs it.
pub trait Material {
    spec fn wf(&self) -> bool;

    fn scatter(&self, ray: &Ray, record: &HitRecord) -> (out: MaterialData)
        requires
            self.wf(),
            scatter_pre(*ray, *record),
        ensures
            scatter_ok(*record, out),
    ;
}

/// The closed set of materials a surface can carry.
#[derive(Clone, Copy)]
pub enum MaterialKind {
    Lambertian(Lambertian),
    Metal(Metal),
    Dielectric(Dielectric),
}

/// Validity of a material's parameters: colors in [0, 1], fuzz in
/// [0, 1], refraction index in [1/16, 16].
pub open spec fn material_wf(m: MaterialKind) -> bool {
    match m {
        MaterialKind::Lambertian(l) => color_wf(l.albedo),
        MaterialKind::Metal(mt) => color_wf(mt.albedo) && 0 <= mt.fuzz <= SCALE,
        MaterialKind::Dielectric(d) => 4096 <= d.refraction_index <= 16 * SCALE,
    }
}

impl MaterialKind {
    /// Dispatch to the variant's scattering rule. Whatever the draws
    /// come out as: a diffuse surface always scatters, tinted by its
    /// albedo; a dielectric always scatters, tinted white; a fuzzless
    /// metal reflects exactly, scattering precisely when the
    /// reflection points away from the surface.
    pub fn scatter(&self, ray: &Ray, record: &HitRecord) -> (out: MaterialData)
        requires
            material_wf(*self),
            scatter_pre(*ray, *record),
        ensures
            scatter_ok(*record, out),
            match (*record, *self) {
                (HitRecord::Hit { point, .. }, MaterialKind::Lambertian(l)) => out
                    matches MaterialData::Scatter { attenuation, scattered } && attenuation
                    == l.albedo && scattered.origin == point,
                _ => true,
            },
            match (*record, *self) {
                (HitRecord::Hit { point, .. }, MaterialKind::Dielectric(d)) => out
                    matches MaterialData::Scatter { attenuation, scattered } && attenuation == (
                Vec3 { x: SCALE, y: SCALE, z: SCALE }) && scattered.origin == point,
                _ => true,
            },
            match (*record, *self) {
                (HitRecord::Hit { point, normal, .. }, MaterialKind::Metal(m)) => m.fuzz == 0
                    ==> out == (if dotw(reflect_v(unit_v(ray.dir), normal), normal) > 0 {
                    MaterialData::Scatter {
                        attenuation: m.albedo,
                        scattered: Ray { origin: point, dir: reflect_v(unit_v(ray.dir), normal) },
                    }
                } else {
                    MaterialData::Not
                }),
                _ => true,
            },
            match *self {
                MaterialKind::Metal(m) => out matches MaterialData::Scatter { attenuation, .. }
                    ==> attenuation == m.albedo,
                _ => true,
            },
            scatter_post(*self, *ray, *record, out),
    {
        match self {
            MaterialKind::Lambertian(l) => l.scatter(ray, record),
            MaterialKind::Metal(m) => m.scatter(ray, record),
            MaterialKind::Dielectric(d) => d.scatter(ray, record),
        }
    }
}

/// The diffuse scattering direction: normal plus a random unit
/// vector, falling back to the normal itself when the sum vanishes.
pub open spec fn lambertian_dir(normal: Vec3, unit_sample: Vec3) -> Vec3 {
    let s = vadd(normal, unit_sample);
    if s.x == 0 && s.y == 0 && s.z == 0 {
        normal
    } else {
        s
    }
}

/// A diffuse surface: always scatters, tinted by its albedo.
#[derive(Clone, Copy)]
pub struct Lambertian {
    pub albedo: Vec3,
}

impl Lambertian {
    pub fn new(albedo: Vec3) -> (r: Lambertian)
        requires
            color_wf(albedo),
        ensures
            r.albedo == albedo,
    {
        Lambertian { albedo }
    }

    /// The deterministic core: scatter from the given hit data using
    /// the given unit-length sample.
    pub fn scatter_with(&self, point: Vec3, normal: Vec3, unit_sample: Vec3) -> (out: MaterialData)
        requires
            color_wf(self.albedo),
            in_box(point, COORD_MAX as int),
            in_box(normal, 2 * SCALE as int),
            in_box(unit_sample, SCALE as int),
        ensures
            out == (MaterialData::Scatter {
                attenuation: self.albedo,
                scattered: Ray { origin: point, dir: lambertian_dir(normal, unit_sample) },
            }),
            scatter_sound(point, out),
    {
        let mut dir = normal.add(unit_sample);
        if dir.near_zero() {
            dir = normal;
        }
        MaterialData::Scatter { attenuation: self.albedo, scattered: Ray::new(point, dir) }
    }
}

impl Material for Lambertian {
    open spec fn wf(&self) -> bool {
        color_wf(self.albedo)
    }

    fn scatter(&self, ray: &Ray, record: &HitRecord) -> (out: MaterialData)
        ensures
            *record matches HitRecord::Hit { point, .. } ==> (out matches MaterialData::Scatter {
                attenuation,
                scattered,
            } && attenuation == self.albedo && scattered.origin == point),
            match *record {
                HitRecord::Hit { point, normal, .. } => exists|u: Vec3|
                    #![auto]
                    in_box(u, SCALE as int) && 4 * dotw(u, u) >= SCALE * SCALE && out == (
                    MaterialData::Scatter {
                        attenuation: self.albedo,
                        scattered: Ray { origin: point, dir: lambertian_dir(normal, u) },
                    }),
                HitRecord::Miss => out == MaterialData::Not,
            },
    {
        match record {
            HitRecord::Hit { point, normal, .. } => {
                let u = Vec3::random_unit_vector();
                let out = self.scatter_with(*point, *normal, u);
                proof {
                    assert(in_box(u, SCALE as int) && 4 * dotw(u, u) >= SCALE * SCALE && out == (
                    MaterialData::Scatter {
                        attenuation: self.albedo,
                        scattered: Ray { origin: *point, dir: lambertian_dir(*normal, u) },
                    }));
                }
                out
            },
            HitRecord::Miss => MaterialData::Not,
        }
    }
}

/// The metallic scattering direction: the reflection of the unit
/// incoming direction, perturbed by fuzz times a sample from the unit
/// ball.
pub open spec fn metal_dir(d: Vec3, normal: Vec3, fuzz: int, samp: Vec3) -> Vec3 {
    vadd(reflect_v(unit_v(d), normal), vscale(samp, fuzz))
}

/// A reflective surface with a fuzz parameter in [0, 1].
#[derive(Clone, Copy)]
pub struct Metal {
    pub albedo: Vec3,
    pub fuzz: i64,
}

impl Metal {
    /// Fuzz is clamped into [0, 1] at construction.
    pub fn new(albedo: Vec3, fuzz: i64) -> (r: Metal)
        requires
            color_wf(albedo),
        ensures
            r.albedo == albedo,
            r.fuzz == if fuzz < 0 {
                0
            } else if fuzz > SCALE {
                SCALE as int
            } else {
                fuzz as int
            },
    {
        let f: i64 = utility::clamp(fuzz, 0, SCALE);
        Metal { albedo, fuzz: f }
    }

    /// The deterministic core: reflect about the normal, perturb by
    /// the fuzz sample, and scatter only if the result still points
    /// away from the surface.
    pub fn scatter_with(&self, ray: &Ray, point: Vec3, normal: Vec3, samp: Vec3) -> (out:
        MaterialData)
        requires
            color_wf(self.albedo),
            0 <= self.fuzz <= SCALE,
            ray_wf(*ray),
            dotw(ray.dir, ray.dir) >= 1,
            in_box(point, COORD_MAX as int),
            in_box(normal, 2 * SCALE as int),
            in_box(samp, SCALE as int),
        ensures
            out == (if dotw(metal_dir(ray.dir, normal, self.fuzz as int, samp), normal) > 0 {
                MaterialData::Scatter {
                    attenuation: self.albedo,
                    scattered: Ray {
                        origin: point,
                        dir: metal_dir(ray.dir, normal, self.fuzz as int, samp),
                    },
                }
            } else {
                MaterialData::Not
            }),
            (self.fuzz == 0 && dotw(normal, normal) == SCALE * SCALE && unit_v(ray.dir) == vneg(
                normal,
            )) ==> out == (MaterialData::Scatter {
                attenuation: self.albedo,
                scattered: Ray { origin: point, dir: normal },
            }),
            self.fuzz == 0 ==> out == (if dotw(reflect_v(unit_v(ray.dir), normal), normal) > 0 {
                MaterialData::Scatter {
                    attenuation: self.albedo,
                    scattered: Ray { origin: point, dir: reflect_v(unit_v(ray.dir), normal) },
                }
            } else {
                MaterialData::Not
            }),
            scatter_sound(point, out),
    {
        let uv = ray.dir().unit_vector();
        let refl = Vec3::reflect(uv, normal);
        proof {
            lemma_fdiv_prod_in(samp.x as int, self.fuzz as int, SCALE as int, SCALE as int, SCALE as int);
            lemma_fdiv_prod_in(samp.y as int, self.fuzz as int, SCALE as int, SCALE as int, SCALE as int);
            lemma_fdiv_prod_in(samp.z as int, self.fuzz as int, SCALE as int, SCALE as int, SCALE as int);
        }
        let fz = samp.scale(self.fuzz);
        let dir = refl.add(fz);
        proof {
            assert(dir == metal_dir(ray.dir, normal, self.fuzz as int, samp));
            if self.fuzz == 0 {
                lemma_metal_dir_fuzz0(ray.dir, normal, samp);
            }
            if self.fuzz == 0 && dotw(normal, normal) == SCALE * SCALE && unit_v(ray.dir) == vneg(
                normal,
            ) {
                lemma_metal_mirror(uv, normal, samp);
                assert(dir == normal);
            }
        }
        let dw: i128 = dir.dot_wide(normal);
        if dw > 0 {
            MaterialData::Scatter { attenuation: self.albedo, scattered: Ray::new(point, dir) }
        } else {
            MaterialData::Not
        }
    }
}

impl Material for Metal {
    open spec fn wf(&self) -> bool {
        color_wf(self.albedo) && 0 <= self.fuzz <= SCALE
    }

    fn scatter(&self, ray: &Ray, record: &HitRecord) -> (out: MaterialData)
        ensures
            match *record {
                HitRecord::Hit { point, normal, .. } => self.fuzz == 0 ==> out == (if dotw(
                    reflect_v(unit_v(ray.dir), normal),
                    normal,
                ) > 0 {
                    MaterialData::Scatter {
                        attenuation: self.albedo,
                        scattered: Ray { origin: point, dir: reflect_v(unit_v(ray.dir), normal) },
                    }
                } else {
                    MaterialData::Not
                }),
                HitRecord::Miss => true,
            },
            out matches MaterialData::Scatter { attenuation, .. } ==> attenuation == self.albedo,
            match *record {
                HitRecord::Hit { point, normal, .. } => exists|samp: Vec3|
                    #![auto]
                    in_box(samp, SCALE as int) && 0 < dotw(samp, samp) < SCALE * SCALE && out == (
                    if dotw(metal_dir(ray.dir, normal, self.fuzz as int, samp), normal) > 0 {
                        MaterialData::Scatter {
                            attenuation: self.albedo,
                            scattered: Ray {
                                origin: point,
                                dir: metal_dir(ray.dir, normal, self.fuzz as int, samp),
                            },
                        }
                    } else {
                        MaterialData::Not
                    }),
                HitRecord::Miss => out == MaterialData::Not,
            },
    {
        match record {
            HitRecord::Hit { point, normal, .. } => {
                let samp = Vec3::random_in_unit_sphere();
                let out = self.scatter_with(ray, *point, *normal, samp);
                proof {
                    assert(in_box(samp, SCALE as int) && 0 < dotw(samp, samp) < SCALE * SCALE
                        && out == (if dotw(
                        metal_dir(ray.dir, *normal, self.fuzz as int, samp),
                        *normal,
                    ) > 0 {
                        MaterialData::Scatter {
                            attenuation: self.albedo,
                            scattered: Ray {
                                origin: *point,
                                dir: metal_dir(ray.dir, *normal, self.fuzz as int, samp),
                            },
                        }
                    } else {
                        MaterialData::Not
                    }));
                }
                out
            },
            HitRecord::Miss => MaterialData::Not,
        }
    }
}

/// With no fuzz the metal direction is exactly the reflection of the
/// normalized incoming direction, whatever the perturbation draw was.
pub proof fn lemma_metal_dir_fuzz0(d: Vec3, normal: Vec3, samp: Vec3)
    ensures
        metal_dir(d, normal, 0, samp) == reflect_v(unit_v(d), normal),
{
    lemma_div_of0(SCALE as int);
    assert(samp.x * 0 == 0 && samp.y * 0 == 0 && samp.z * 0 == 0);
    assert(vscale(samp, 0) == (Vec3 { x: 0i64, y: 0i64, z: 0i64 }));
    let r = reflect_v(unit_v(d), normal);
    assert(vadd(r, Vec3 { x: 0i64, y: 0i64, z: 0i64 }) == r);
}

/// With no fuzz and a unit normal met head on, the metal direction is
/// the normal itself: the mirror image of the incoming unit direction.
proof fn lemma_metal_mirror(uv: Vec3, normal: Vec3, samp: Vec3)
    requires
        in_box(uv, SCALE as int),
        in_box(normal, 2 * SCALE as int),
        dotw(normal, normal) == SCALE * SCALE,
        uv == vneg(normal),
    ensures
        metal_dir_from_unit(uv, normal, 0, samp) == normal,
{
    lemma_dotw_neg(normal);
    assert(dotw(uv, normal) == -(SCALE * SCALE));
    lemma_reflect_of_opposite(uv, normal);
    assert(vscale(samp, 0) == (Vec3 { x: 0i64, y: 0i64, z: 0i64 })) by {
        lemma_div_of0(SCALE as int);
        assert(samp.x * 0 == 0);
        assert(samp.y * 0 == 0);
        assert(samp.z * 0 == 0);
    }
}

/// The metal direction, phrased over the already-normalized incoming
/// direction: what scatter_with computes after normalization.
pub open spec fn metal_dir_from_unit(uv: Vec3, normal: Vec3, fuzz: int, samp: Vec3) -> Vec3 {
    vadd(reflect_v(uv, normal), vscale(samp, fuzz))
}

/// The refraction ratio across the boundary: 1/index when entering
/// the medium (front face), index when leaving it.
pub open spec fn dielectric_ratio(ri: int, front: bool) -> int {
    if front {
        fdiv(SCALE * SCALE, ri)
    } else {
        ri
    }
}

/// Schlick's reflectance approximation in fixed point:
/// r0 + (1 - r0) * (1 - cos)^5 with r0 = ((1 - ri) / (1 + ri))^2,
/// every product scaled back down and rounded once.
pub open spec fn reflectance_spec(cos: int, ri: int) -> int {
    let r0 = fdiv((SCALE - ri) * SCALE, SCALE + ri);
    let r0sq = fdiv(r0 * r0, SCALE as int);
    let u = SCALE - cos;
    let p2 = fdiv(u * u, SCALE as int);
    let p4 = fdiv(p2 * p2, SCALE as int);
    let p5 = fdiv(p4 * u, SCALE as int);
    r0sq + fdiv((SCALE - r0sq) * p5, SCALE as int)
}

/// The dielectric scattering direction for a uniform draw u: reflect
/// on total internal reflection, or when Schlick's reflectance
/// exceeds u; otherwise refract.
pub open spec fn dielectric_dir(d: Vec3, n: Vec3, ri: int, front: bool, u: int) -> Vec3 {
    let ratio = dielectric_ratio(ri, front);
    let v = unit_v(d);
    let cos = refract_cos(v, n);
    let ssq0 = SCALE * SCALE - cos * cos;
    let ssq = if ssq0 < 0 {
        0
    } else {
        ssq0
    };
    let sin = sqrt_floor(ssq);
    if ratio * sin > SCALE * SCALE || reflectance_spec(cos, ratio) > u {
        reflect_v(v, n)
    } else {
        refract_v(v, n, ratio)
    }
}

/// A transparent refractive surface: always scatters, never tints.
#[derive(Clone, Copy)]
pub struct Dielectric {
    pub refraction_index: i64,
}

impl Dielectric {
    /// The index must lie in [1/16, 16] so that the inverse ratio
    /// stays on the fixed-point grid.
    pub fn new(refraction_index: i64) -> (r: Dielectric)
        requires
            4096 <= refraction_index <= 16 * SCALE as int,
        ensures
            r.refraction_index == refraction_index,
    {
        Dielectric { refraction_index }
    }

    /// Schlick's approximation; exact per [`reflectance_spec`].
    fn reflectance(cosine: i64, ref_idx: i64) -> (r: i64)
        requires
            -13 * SCALE as int <= cosine <= SCALE,
            4096 <= ref_idx <= 16 * SCALE as int,
        ensures
            r == reflectance_spec(cosine as int, ref_idx as int),
    {
        proof {
            assert(-(15 * SCALE as int * SCALE as int) <= ((SCALE - ref_idx) as int) * (
            SCALE as int) <= 15 * SCALE as int * SCALE as int) by (nonlinear_arith)
                requires
                    -15 * SCALE as int <= SCALE - ref_idx <= SCALE as int,
            ;
        }
        let num0: i128 = ((SCALE - ref_idx) as i128) * (SCALE as i128);
        let den: i128 = (SCALE + ref_idx) as i128;
        proof {
            lemma_fdiv_in(num0 as int, den as int, 15 * SCALE as int * SCALE as int);
            lemma_div_is_ordered_by_denominator(
                15 * SCALE as int * SCALE as int,
                SCALE as int,
                den as int,
            );
        }
        let r0: i128 = utility::div_floor(num0, den);
        proof {
            lemma_fdiv_prod_in(
                r0 as int,
                r0 as int,
                SCALE as int,
                16 * SCALE as int,
                16 * SCALE as int,
            );
            assert((16 * SCALE as int) * (16 * SCALE as int) == 256 * (SCALE * SCALE as int))
                by (nonlinear_arith);
            assert(r0 as int * r0 as int >= 0) by (nonlinear_arith);
            lemma_fdiv_nonneg(r0 as int * r0 as int, SCALE as int);
        }
        let r0sq: i128 = utility::div_floor(r0 * r0, SCALE as i128);
        let u: i128 = (SCALE - cosine) as i128;
        proof {
            lemma_fdiv_prod_in(u as int, u as int, SCALE as int, 14 * SCALE as int, 14
                * SCALE as int);
            assert((14 * SCALE as int) * (14 * SCALE as int) == 196 * (SCALE * SCALE as int))
                by (nonlinear_arith);
            assert(u as int * u as int >= 0) by (nonlinear_arith);
            lemma_fdiv_nonneg(u as int * u as int, SCALE as int);
        }
        let p2: i128 = utility::div_floor(u * u, SCALE as i128);
        proof {
            lemma_fdiv_prod_in(
                p2 as int,
                p2 as int,
                SCALE as int,
                196 * SCALE as int,
                196 * SCALE as int,
            );
            assert((196 * SCALE as int) * (196 * SCALE as int) == 38416 * (SCALE * SCALE as int))
                by (nonlinear_arith);
            assert(p2 as int * p2 as int >= 0) by (nonlinear_arith);
            lemma_fdiv_nonneg(p2 as int * p2 as int, SCALE as int);
        }
        let p4: i128 = utility::div_floor(p2 * p2, SCALE as i128);
        proof {
            lemma_fdiv_prod_in(
                p4 as int,
                u as int,
                SCALE as int,
                38416 * SCALE as int,
                14 * SCALE as int,
            );
            assert((38416 * SCALE as int) * (14 * SCALE as int) == 537824 * (SCALE * SCALE as int))
                by (nonlinear_arith);
            assert(p4 as int * u as int >= 0) by (nonlinear_arith)
                requires
                    p4 >= 0,
                    u >= 0,
            ;
            lemma_fdiv_nonneg(p4 as int * u as int, SCALE as int);
        }
        let p5: i128 = utility::div_floor(p4 * u, SCALE as i128);
        proof {
            lemma_fdiv_prod_in(
                (SCALE as i128 - r0sq) as int,
                p5 as int,
                SCALE as int,
                256 * SCALE as int,
                537824 * SCALE as int,
            );
            assert((256 * SCALE as int) * (537824 * SCALE as int) == 137682944 * (SCALE
                * SCALE as int)) by (nonlinear_arith);
        }
        let tail: i128 = utility::div_floor(((SCALE as i128) - r0sq) * p5, SCALE as i128);
        (r0sq as i64) + (tail as i64)
    }

    /// The deterministic core: decide between reflection and
    /// refraction from the hit data and the uniform draw u.
    pub fn scatter_with(
        &self,
        ray: &Ray,
        point: Vec3,
        normal: Vec3,
        front_face: bool,
        u: i64,
    ) -> (out: MaterialData)
        requires
            4096 <= self.refraction_index <= 16 * SCALE as int,
            ray_wf(*ray),
            dotw(ray.dir, ray.dir) >= 1,
            in_box(point, COORD_MAX as int),
            in_box(normal, 2 * SCALE as int),
            0 <= u,
        ensures
            out == (MaterialData::Scatter {
                attenuation: Vec3 { x: SCALE, y: SCALE, z: SCALE },
                scattered: Ray {
                    origin: point,
                    dir: dielectric_dir(
                        ray.dir,
                        normal,
                        self.refraction_index as int,
                        front_face,
                        u as int,
                    ),
                },
            }),
            scatter_sound(point, out),
    {
        let ri: i64 = self.refraction_index;
        let ratio: i64 = if front_face {
            let q: i128 = utility::div_floor((SCALE as i128) * (SCALE as i128), ri as i128);
            proof {
                lemma_fdiv_nonneg(SCALE * SCALE as int, ri as int);
                lemma_div_is_ordered_by_denominator(SCALE * SCALE as int, ri as int, 16
                    * SCALE as int);
                lemma_div_is_ordered_by_denominator(SCALE * SCALE as int, 4096, ri as int);
                lemma_fundamental_div_mod_converse_div(
                    SCALE * SCALE as int,
                    16 * SCALE as int,
                    4096,
                    0,
                );
                lemma_fundamental_div_mod_converse_div(
                    SCALE * SCALE as int,
                    4096,
                    16 * SCALE as int,
                    0,
                );
                assert((SCALE * SCALE as int) / (16 * SCALE as int) == 4096);
                assert((SCALE * SCALE as int) / 4096 == 16 * SCALE as int);
                assert(4096 <= q <= 16 * SCALE as int);
            }
            q as i64
        } else {
            ri
        };
        proof {
            assert(4096 <= ratio <= 16 * SCALE as int);
        }
        let uv = ray.dir().unit_vector();
        let dw: i128 = uv.dot_wide(normal);
        proof {
            assert(-6 * (SCALE * SCALE as int) <= dw <= 6 * (SCALE * SCALE as int))
                by (nonlinear_arith)
                requires
                    in_box(uv, SCALE as int),
                    in_box(normal, 2 * SCALE as int),
                    dw == dotw(uv, normal),
            ;
            lemma_fdiv_in(-(dw as int), SCALE as int, 6 * (SCALE * SCALE as int));
        }
        let c0: i128 = utility::div_floor(-dw, SCALE as i128);
        let cos: i64 = if c0 > (SCALE as i128) {
            SCALE
        } else {
            c0 as i64
        };
        proof {
            assert(0 <= (cos as int) * (cos as int) <= 169 * (SCALE * SCALE as int))
                by (nonlinear_arith)
                requires
                    -13 * SCALE as int <= cos <= SCALE as int,
            ;
        }
        let ssq0: i128 = (SCALE as i128) * (SCALE as i128) - (cos as i128) * (cos as i128);
        let ssq: i128 = if ssq0 < 0 {
            0
        } else {
            ssq0
        };
        let sin: u128 = utility::isqrt(ssq as u128);
        proof {
            assert(sin as int <= SCALE as int) by (nonlinear_arith)
                requires
                    0 <= sin,
                    (sin as int) * (sin as int) <= ssq as int,
                    ssq as int <= (SCALE * SCALE as int),
            ;
        }
        proof {
            assert(0 <= (ratio as int) * (sin as int) <= (16 * SCALE as int) * (SCALE as int))
                by (nonlinear_arith)
                requires
                    0 < ratio <= 16 * SCALE as int,
                    0 <= sin <= SCALE as int,
            ;
        }
        let cannot: bool = (ratio as i128) * (sin as i128) > (SCALE as i128) * (SCALE as i128);
        let refl: i64 = Dielectric::reflectance(cos, ratio);
        let dir: Vec3 = if cannot || refl > u {
            Vec3::reflect(uv, normal)
        } else {
            Vec3::refract(uv, normal, ratio)
        };
        proof {
            assert(dir == dielectric_dir(
                ray.dir,
                normal,
                self.refraction_index as int,
                front_face,
                u as int,
            ));
        }
        MaterialData::Scatter {
            attenuation: Vec3 { x: SCALE, y: SCALE, z: SCALE },
            scattered: Ray::new(point, dir),
        }
    }
}

impl Material for Dielectric {
    open spec fn wf(&self) -> bool {
        4096 <= self.refraction_index <= 16 * SCALE as int
    }

    fn scatter(&self, ray: &Ray, record: &HitRecord) -> (out: MaterialData)
        ensures
            *record matches HitRecord::Hit { point, .. } ==> (out matches MaterialData::Scatter {
                attenuation,
                scattered,
            } && attenuation == (Vec3 { x: SCALE, y: SCALE, z: SCALE }) && scattered.origin
                == point),
            match *record {
                HitRecord::Hit { point, normal, front_face, .. } => exists|u: int|
                    #![auto]
                    0 <= u < SCALE && out == (MaterialData::Scatter {
                        attenuation: Vec3 { x: SCALE, y: SCALE, z: SCALE },
                        scattered: Ray {
                            origin: point,
                            dir: dielectric_dir(
                                ray.dir,
                                normal,
                                self.refraction_index as int,
                                front_face,
                                u,
                            ),
                        },
                    }),
                HitRecord::Miss => out == MaterialData::Not,
            },
    {
        match record {
            HitRecord::Hit { point, normal, front_face, .. } => {
                let u = utility::random();
                let out = self.scatter_with(ray, *point, *normal, *front_face, u);
                proof {
                    assert(0 <= u < SCALE && out == (MaterialData::Scatter {
                        attenuation: Vec3 { x: SCALE, y: SCALE, z: SCALE },
                        scattered: Ray {
                            origin: *point,
                            dir: dielectric_dir(
                                ray.dir,
                                *normal,
                                self.refraction_index as int,
                                *front_face,
                                u as int,
                            ),
                        },
                    }));
                }
                out
            },
            HitRecord::Miss => MaterialData::Not,
        }
    }
}

/// A dielectric with refraction index 1 passes a normal-incidence
/// ray straight through: with a unit normal met exactly head on
/// (the unit incoming direction is the negated normal), the
/// reflectance is zero for every nonnegative draw, refraction is
/// chosen, and the refracted direction is exactly the incoming unit
/// direction.
pub proof fn lemma_dielectric_straight_through(d: Vec3, n: Vec3, u: int)
    requires
        in_box(n, 2 * SCALE as int),
        dotw(n, n) == SCALE * SCALE,
        unit_v(d) == vneg(n),
        0 <= u,
    ensures
        dielectric_dir(d, n, SCALE as int, true, u) == unit_v(d),
{
    let v = unit_v(d);
    lemma_div_multiples_vanish(SCALE as int, SCALE as int);
    assert(SCALE * SCALE == (SCALE as int) * (SCALE as int));
    assert(fdiv(SCALE * SCALE, SCALE as int) == SCALE as int);
    assert(dielectric_ratio(SCALE as int, true) == SCALE as int);
    lemma_dotw_neg(n);
    assert(dotw(v, n) == -(SCALE * SCALE));
    assert(refract_cos(v, n) == SCALE as int);
    assert(SCALE * SCALE - (SCALE as int) * (SCALE as int) == 0);
    assert(is_sqrt_floor(0, 0));
    lemma_sqrt_floor_exists(0);
    lemma_sqrt_floor_unique(0, 0, sqrt_floor(0));
    lemma_div_of0(SCALE + SCALE as int);
    lemma_div_of0(SCALE as int);
    assert((SCALE - SCALE as int) * SCALE == 0);
    assert(fdiv((SCALE - SCALE as int) * SCALE, SCALE + SCALE as int) == 0);
    assert(fdiv(0, SCALE as int) == 0);
    assert(reflectance_spec(SCALE as int, SCALE as int) == 0);
    assert(v.x == -n.x && v.y == -n.y && v.z == -n.z);
    lemma_div_multiples_vanish(n.x as int, SCALE as int);
    lemma_div_multiples_vanish(n.y as int, SCALE as int);
    lemma_div_multiples_vanish(n.z as int, SCALE as int);
    assert(fdiv(SCALE * n.x, SCALE as int) == n.x);
    assert(fdiv(SCALE * n.y, SCALE as int) == n.y);
    assert(fdiv(SCALE * n.z, SCALE as int) == n.z);
    assert(refract_perp_c(v.x as int, n.x as int, SCALE as int, SCALE as int) == 0);
    assert(refract_perp_c(v.y as int, n.y as int, SCALE as int, SCALE as int) == 0);
    assert(refract_perp_c(v.z as int, n.z as int, SCALE as int, SCALE as int) == 0);
    assert(is_sqrt_floor(SCALE * SCALE, SCALE as int)) by (nonlinear_arith);
    lemma_sqrt_floor_exists(SCALE * SCALE);
    lemma_sqrt_floor_unique(SCALE * SCALE, SCALE as int, sqrt_floor(SCALE * SCALE));
    assert(sqrt_floor(SCALE * SCALE) == SCALE as int);
    assert(refract_num(v, n, SCALE as int) == (v.x as int, v.y as int, v.z as int));
    assert(refract_v(v, n, SCALE as int) == v);
    assert(dielectric_dir(d, n, SCALE as int, true, u) == refract_v(v, n, SCALE as int));
}

/// Negating a vector negates its dot products.
proof fn lemma_dotw_neg(n: Vec3)
    requires
        in_box(n, 2 * SCALE as int),
    ensures
        dotw(vneg(n), n) == -dotw(n, n),
{
    let m = vneg(n);
    assert(m.x == -n.x && m.y == -n.y && m.z == -n.z);
    assert((-n.x) * n.x + (-n.y) * n.y + (-n.z) * n.z == -(n.x * n.x + n.y * n.y + n.z * n.z))
        by (nonlinear_arith);
}

/// Reflecting the exact opposite of a unit normal returns the normal.
proof fn lemma_reflect_of_opposite(uv: Vec3, n: Vec3)
    requires
        in_box(uv, SCALE as int),
        in_box(n, 2 * SCALE as int),
        dotw(uv, n) == -(SCALE * SCALE),
        uv == vneg(n),
    ensures
        reflect_v(uv, n) == n,
{
    assert(2 * dotw(uv, n) * n.x == (SCALE * SCALE) * (-2 * n.x)) by (nonlinear_arith)
        requires
            dotw(uv, n) == -(SCALE * SCALE),
    ;
    assert(2 * dotw(uv, n) * n.y == (SCALE * SCALE) * (-2 * n.y)) by (nonlinear_arith)
        requires
            dotw(uv, n) == -(SCALE * SCALE),
    ;
    assert(2 * dotw(uv, n) * n.z == (SCALE * SCALE) * (-2 * n.z)) by (nonlinear_arith)
        requires
            dotw(uv, n) == -(SCALE * SCALE),
    ;
    lemma_div_multiples_vanish(-2 * n.x as int, SCALE * SCALE);
    lemma_div_multiples_vanish(-2 * n.y as int, SCALE * SCALE);
    lemma_div_multiples_vanish(-2 * n.z as int, SCALE * SCALE);
    assert(fdiv(2 * dotw(uv, n) * n.x, SCALE * SCALE) == -2 * n.x);
    assert(fdiv(2 * dotw(uv, n) * n.y, SCALE * SCALE) == -2 * n.y);
    assert(fdiv(2 * dotw(uv, n) * n.z, SCALE * SCALE) == -2 * n.z);
}

} // verus!
