//! Vector algebra, rays, and the numeric kernel.

use raytrace::utility;
use raytrace::utility::SCALE;
use raytrace::vec3::Vec3;
use raytrace::ray::Ray;

#[test]
fn div_floor_rounds_toward_negative_infinity() {
    assert_eq!(utility::div_floor(7, 2), 3);
    assert_eq!(utility::div_floor(-7, 2), -4);
    assert_eq!(utility::div_floor(7, -2), -4);
    assert_eq!(utility::div_floor(-7, -2), 3);
    assert_eq!(utility::div_floor(0, 5), 0);
}

#[test]
fn isqrt_exact_and_floor() {
    assert_eq!(utility::isqrt(0), 0);
    assert_eq!(utility::isqrt(15), 3);
    assert_eq!(utility::isqrt(16), 4);
    assert_eq!(utility::isqrt(1u128 << 64), 1u128 << 32);
    assert_eq!(utility::isqrt((1u128 << 64) - 1), (1u128 << 32) - 1);
}

#[test]
fn mul_fx_rounds_down() {
    assert_eq!(utility::mul_fx(2 * SCALE, 3 * SCALE), 6 * SCALE);
    assert_eq!(utility::mul_fx(-1, 1), -1);
    assert_eq!(utility::mul_fx(SCALE / 2, SCALE / 2), SCALE / 4);
}

#[test]
fn clamp_matches_branches() {
    assert_eq!(utility::clamp(5, 0, 10), 5);
    assert_eq!(utility::clamp(-5, 0, 10), 0);
    assert_eq!(utility::clamp(15, 0, 10), 10);
}

#[test]
fn degrees_to_radians_exact() {
    assert_eq!(utility::degrees_to_radians(180 * SCALE), 205887);
    assert_eq!(utility::degrees_to_radians(90 * SCALE), 102943);
    assert_eq!(utility::degrees_to_radians(0), 0);
}

#[test]
fn random_is_a_unit_interval_sample() {
    for _ in 0..100 {
        let r = utility::random();
        assert!(0 <= r && r < SCALE);
    }
}

#[test]
fn random_vectors_sample_the_unit_cube() {
    for _ in 0..20 {
        let v = Vec3::random();
        assert!(0 <= v.x() && v.x() < SCALE);
        assert!(0 <= v.y() && v.y() < SCALE);
        assert!(0 <= v.z() && v.z() < SCALE);
    }
    for _ in 0..20 {
        let v = Vec3::random_range(-2 * SCALE, 2 * SCALE);
        assert!(-2 * SCALE <= v.x() && v.x() < 2 * SCALE);
        assert!(-2 * SCALE <= v.y() && v.y() < 2 * SCALE);
        assert!(-2 * SCALE <= v.z() && v.z() < 2 * SCALE);
    }
}

#[test]
fn random_range_stays_in_range() {
    for _ in 0..100 {
        let r = utility::random_range(-SCALE, SCALE);
        assert!(-SCALE <= r && r < SCALE);
    }
    assert_eq!(utility::random_range(7, 7), 7);
}

#[test]
fn vector_ops_are_componentwise() {
    let a = Vec3::new(1, 2, 3);
    let b = Vec3::new(10, 20, 30);
    let s = a.add(b);
    assert_eq!((s.x(), s.y(), s.z()), (11, 22, 33));
    let d = b.sub(a);
    assert_eq!((d.x(), d.y(), d.z()), (9, 18, 27));
    let n = a.neg();
    assert_eq!((n.x(), n.y(), n.z()), (-1, -2, -3));
    let m = Vec3::new(2 * SCALE, 3 * SCALE, 4 * SCALE).mul(Vec3::new(SCALE, 2 * SCALE, SCALE / 2));
    assert_eq!((m.x(), m.y(), m.z()), (2 * SCALE, 6 * SCALE, 2 * SCALE));
    let sc = Vec3::new(SCALE, -SCALE, 2 * SCALE).scale(SCALE / 2);
    assert_eq!((sc.x(), sc.y(), sc.z()), (SCALE / 2, -SCALE / 2, SCALE));
    let dv = Vec3::new(SCALE, -SCALE, 2 * SCALE).div(2 * SCALE);
    assert_eq!((dv.x(), dv.y(), dv.z()), (SCALE / 2, -SCALE / 2, SCALE));
}

#[test]
fn compound_assign_matches_apply_then_assign() {
    let a = Vec3::new(1, 2, 3);
    let b = Vec3::new(10, 20, 30);
    let mut c = a;
    c.add_assign(b);
    let s = a.add(b);
    assert_eq!((c.x(), c.y(), c.z()), (s.x(), s.y(), s.z()));
    let mut d = b;
    d.sub_assign(a);
    let e = b.sub(a);
    assert_eq!((d.x(), d.y(), d.z()), (e.x(), e.y(), e.z()));
    let mut f = Vec3::new(SCALE, -SCALE, 2 * SCALE);
    f.mul_assign(SCALE / 2);
    let g = Vec3::new(SCALE, -SCALE, 2 * SCALE).scale(SCALE / 2);
    assert_eq!((f.x(), f.y(), f.z()), (g.x(), g.y(), g.z()));
    let mut h = Vec3::new(SCALE, -SCALE, 2 * SCALE);
    h.div_assign(2 * SCALE);
    let i = Vec3::new(SCALE, -SCALE, 2 * SCALE).div(2 * SCALE);
    assert_eq!((h.x(), h.y(), h.z()), (i.x(), i.y(), i.z()));
}

#[test]
fn dot_and_cross_basis() {
    let x = Vec3::new(SCALE, 0, 0);
    let y = Vec3::new(0, SCALE, 0);
    let z = Vec3::new(0, 0, SCALE);
    assert_eq!(x.dot(x), SCALE);
    assert_eq!(x.dot(y), 0);
    let c = x.cross(y);
    assert_eq!((c.x(), c.y(), c.z()), (z.x(), z.y(), z.z()));
}

#[test]
fn length_and_unit_vector_on_a_pythagorean_triple() {
    let v = Vec3::new(3 * SCALE, 4 * SCALE, 0);
    assert_eq!(v.length(), 5 * SCALE);
    assert_eq!(v.length_squared(), 25 * SCALE);
    let u = v.unit_vector();
    assert_eq!((u.x(), u.y(), u.z()), (39321, 52428, 0));
}

#[test]
fn index_reads_the_three_components() {
    let v = Vec3::new(7, 8, 9);
    assert_eq!(v.index(0), 7);
    assert_eq!(v.index(1), 8);
    assert_eq!(v.index(2), 9);
}

#[test]
fn near_zero_only_on_the_zero_vector() {
    assert!(Vec3::new(0, 0, 0).near_zero());
    assert!(!Vec3::new(1, 0, 0).near_zero());
    assert!(!Vec3::new(0, 0, -1).near_zero());
}

#[test]
fn reflect_about_an_axis_normal_is_an_involution() {
    let v = Vec3::new(100, 200, 300);
    let n = Vec3::new(0, 0, SCALE);
    let r = Vec3::reflect(v, n);
    assert_eq!((r.x(), r.y(), r.z()), (100, 200, -300));
    let rr = Vec3::reflect(r, n);
    assert_eq!((rr.x(), rr.y(), rr.z()), (100, 200, 300));
}

#[test]
fn refract_straight_through_at_unit_index() {
    let v = Vec3::new(0, 0, -SCALE);
    let n = Vec3::new(0, 0, SCALE);
    let r = Vec3::refract(v, n, SCALE);
    assert_eq!((r.x(), r.y(), r.z()), (0, 0, -SCALE));
}

#[test]
fn random_in_unit_sphere_is_inside_and_nonzero() {
    for _ in 0..20 {
        let v = Vec3::random_in_unit_sphere();
        let w = (v.x() as i128) * (v.x() as i128) + (v.y() as i128) * (v.y() as i128)
            + (v.z() as i128) * (v.z() as i128);
        assert!(0 < w && w < (SCALE as i128) * (SCALE as i128));
    }
}

#[test]
fn random_unit_vector_is_near_unit() {
    for _ in 0..20 {
        let v = Vec3::random_unit_vector();
        assert!(v.x().abs() <= SCALE && v.y().abs() <= SCALE && v.z().abs() <= SCALE);
    }
}

#[test]
fn ray_at_walks_the_parametric_line() {
    let r = Ray::new(Vec3::new(0, 0, 0), Vec3::new(0, 0, -SCALE));
    let p = r.at(SCALE / 2);
    assert_eq!((p.x(), p.y(), p.z()), (0, 0, -SCALE / 2));
    assert_eq!(r.origin().x(), 0);
    assert_eq!(r.dir().z(), -SCALE);
}
