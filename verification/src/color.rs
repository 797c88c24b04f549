//! The color-recursion algorithm: trace a ray, shade at the nearest
//! hit, and recurse into the scattered ray until the depth budget is
//! exhausted.
//!
//! An exhausted depth returns exactly black; a miss returns the sky
//! gradient; an absorbed ray returns black; a scattered ray
//! contributes its attenuation times the recursive color. Colors stay
//! in [0, 1] componentwise throughout.

use vstd::prelude::*;
use crate::utility;
use crate::utility::{fdiv, lemma_fdiv_nonneg, lemma_fdiv_ordered, lemma_fdiv_in, SCALE};
use crate::vec3::{Vec3, dotw, unit_v, reflect_v};
use crate::ray::{Ray, ray_wf};
use crate::hittable::{HitRecord, HittableList, all_wf, ind_hit, is_hit, scene_hit};
use crate::material::{MaterialData, MaterialKind};
use vstd::arithmetic::div_mod::lemma_div_multiples_vanish;

verus! {

/// Hits nearer than this are ignored, so a ray cannot immediately
/// re-hit the surface it just left (shadow acne): about 0.001.
pub const T_EPS: i64 = 65;

/// The sky gradient a missed ray samples: a vertical blend from
/// white where the unit direction points down (y = -1) to sky blue
/// where it points up (y = +1).
pub open spec fn sky_color(d: Vec3) -> Vec3 {
    let t = fdiv(unit_v(d).y + SCALE, 2);
    Vec3 {
        x: (fdiv(SCALE * (SCALE - t), SCALE as int) + fdiv(32768 * t, SCALE as int)) as i64,
        y: (fdiv(SCALE * (SCALE - t), SCALE as int) + fdiv(45875 * t, SCALE as int)) as i64,
        z: (fdiv(SCALE * (SCALE - t), SCALE as int) + fdiv(65536 * t, SCALE as int)) as i64,
    }
}

/// Every member of the scene misses the ray over the working
/// interval (T_EPS, i64::MAX).
pub open spec fn scene_misses(world: HittableList, ray: Ray) -> bool {
    forall|i: int|
        0 <= i < world.list@.len() ==> !is_hit(
            #[trigger] ind_hit(world.list@, ray, T_EPS as int, i64::MAX as int, i),
        )
}

/// The color carried back by a ray: black once the depth budget is
/// spent (no light gathered), the sky on a miss, and otherwise the
/// scattering attenuation folded componentwise (by `Vec3::mul`) into
/// the recursive color. A scattered direction that rounds to zero is
/// treated as absorbed. Whatever the draws come out as: a first hit
/// on a diffuse surface caps the color at that albedo, and a first
/// hit on a fuzzless metal whose reflection points into the surface
/// absorbs the ray outright.
pub fn ray_color(ray: &Ray, world: &HittableList, depth: i32) -> (c: Vec3)
    requires
        ray_wf(*ray),
        dotw(ray.dir, ray.dir) >= 1,
        all_wf(world.list@),
    ensures
        depth < 0 ==> c == (Vec3 { x: 0i64, y: 0i64, z: 0i64 }),
        depth >= 0 && scene_misses(*world, *ray) ==> c == sky_color(ray.dir),
        0 <= c.x <= SCALE && 0 <= c.y <= SCALE && 0 <= c.z <= SCALE,
        depth >= 0 ==> match scene_hit(world.list@, *ray, T_EPS as int, i64::MAX as int) {
            HitRecord::Hit { material: MaterialKind::Lambertian(l), .. } => c.x <= l.albedo.x
                && c.y <= l.albedo.y && c.z <= l.albedo.z,
            HitRecord::Hit { material: MaterialKind::Metal(m), .. } => c.x <= m.albedo.x && c.y
                <= m.albedo.y && c.z <= m.albedo.z,
            _ => true,
        },
        depth >= 0 ==> match scene_hit(world.list@, *ray, T_EPS as int, i64::MAX as int) {
            HitRecord::Hit { material: MaterialKind::Metal(m), normal, .. } => (m.fuzz == 0
                && dotw(reflect_v(unit_v(ray.dir), normal), normal) <= 0) ==> c == (Vec3 {
                x: 0i64,
                y: 0i64,
                z: 0i64,
            }),
            _ => true,
        },
    decreases (if depth < 0 {
        0int
    } else {
        depth + 1
    }),
{
    if depth < 0 {
        return Vec3::new(0, 0, 0);
    }
    let rec = world.hit(ray, T_EPS, i64::MAX);
    match rec {
        HitRecord::Hit { material, .. } => {
            let out = material.scatter(ray, &rec);
            match out {
                MaterialData::Scatter { attenuation, scattered } => {
                    let dw: i128 = scattered.dir.dot_wide(scattered.dir);
                    if dw < 1 {
                        return Vec3::new(0, 0, 0);
                    }
                    let sub = ray_color(&scattered, world, depth - 1);
                    proof {
                        lemma_color_mul(attenuation.x as int, sub.x as int);
                        lemma_color_mul(attenuation.y as int, sub.y as int);
                        lemma_color_mul(attenuation.z as int, sub.z as int);
                    }
                    attenuation.mul(sub)
                },
                MaterialData::Not => Vec3::new(0, 0, 0),
            }
        },
        HitRecord::Miss => {
            let u = ray.dir().unit_vector();
            let t: i64 = utility::div_floor(((u.y + SCALE) as i128), 2) as i64;
            proof {
                lemma_fdiv_nonneg((u.y + SCALE) as int, 2);
                lemma_fdiv_in((u.y + SCALE) as int, 2, 2 * SCALE as int);
                lemma_sky_comp(32768, t as int);
                lemma_sky_comp(45875, t as int);
                lemma_sky_comp(65536, t as int);
            }
            let white = Vec3::new(SCALE, SCALE, SCALE);
            let blue = Vec3::new(32768, 45875, 65536);
            let wpart = white.scale(SCALE - t);
            let bpart = blue.scale(t);
            proof {
                lemma_div_multiples_vanish(SCALE as int - t, SCALE as int);
                assert(SCALE * (SCALE as int - t) == (SCALE as int) * (SCALE as int - t));
                assert(fdiv(SCALE * (SCALE - t), SCALE as int) == SCALE as int - t);
            }
            let c = wpart.add(bpart);
            proof {
                assert(c == sky_color(ray.dir));
            }
            c
        },
    }
}

/// The product of two colors in [0, 1] is a color in [0, 1], and is
/// at most either factor.
proof fn lemma_color_mul(a: int, b: int)
    requires
        0 <= a <= SCALE,
        0 <= b <= SCALE,
    ensures
        0 <= fdiv(a * b, SCALE as int) <= SCALE,
        fdiv(a * b, SCALE as int) <= a,
{
    assert(0 <= a * b <= SCALE * SCALE && a * b <= a * SCALE) by (nonlinear_arith)
        requires
            0 <= a <= SCALE,
            0 <= b <= SCALE,
    ;
    lemma_fdiv_nonneg(a * b, SCALE as int);
    lemma_fdiv_ordered(a * b, SCALE * SCALE, SCALE as int);
    lemma_div_multiples_vanish(SCALE as int, SCALE as int);
    assert(fdiv(SCALE * SCALE, SCALE as int) == SCALE as int);
    lemma_fdiv_ordered(a * b, a * SCALE, SCALE as int);
    lemma_div_multiples_vanish(a, SCALE as int);
    assert(a * SCALE == SCALE * a);
    assert(fdiv(a * SCALE, SCALE as int) == a);
}

/// One component of the sky blend: with a blend weight t in [0, 1]
/// and a channel value v at most 1, (1 - t) + v * t / 1 stays a
/// valid color component.
proof fn lemma_sky_comp(v: int, t: int)
    requires
        0 <= v <= SCALE,
        0 <= t <= SCALE,
    ensures
        0 <= fdiv(v * t, SCALE as int) <= t,
        0 <= (SCALE - t) + fdiv(v * t, SCALE as int) <= SCALE,
{
    assert(0 <= v * t <= SCALE * t) by (nonlinear_arith)
        requires
            0 <= v <= SCALE,
            0 <= t,
    ;
    lemma_fdiv_nonneg(v * t, SCALE as int);
    lemma_fdiv_ordered(v * t, SCALE * t, SCALE as int);
    lemma_div_multiples_vanish(t, SCALE as int);
    assert(fdiv(SCALE * t, SCALE as int) == t);
}

} // verus!
