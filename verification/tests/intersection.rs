//! Sphere intersection and nearest-hit selection over a scene.

use raytrace::utility::SCALE;
use raytrace::vec3::Vec3;
use raytrace::ray::Ray;
use raytrace::hittable::{HitRecord, Hittable, HittableList};
use raytrace::sphere::Sphere;
use raytrace::material::{Lambertian, MaterialKind};

fn gray() -> MaterialKind {
    MaterialKind::Lambertian(Lambertian::new(Vec3::new(SCALE / 2, SCALE / 2, SCALE / 2)))
}

#[test]
fn head_on_sphere_hit_is_exact() {
    let s = Sphere::new(Vec3::new(0, 0, -SCALE), SCALE / 2, gray());
    let r = Ray::new(Vec3::new(0, 0, 0), Vec3::new(0, 0, -SCALE));
    match s.hit(&r, 65, i64::MAX) {
        HitRecord::Hit { point, t, normal, front_face, .. } => {
            assert_eq!(t, SCALE / 2);
            assert_eq!((point.x(), point.y(), point.z()), (0, 0, -SCALE / 2));
            assert_eq!((normal.x(), normal.y(), normal.z()), (0, 0, SCALE));
            assert!(front_face);
        },
        HitRecord::Miss => panic!("expected a hit"),
    }
}

#[test]
fn miss_when_aimed_away() {
    let s = Sphere::new(Vec3::new(0, 0, -SCALE), SCALE / 2, gray());
    let r = Ray::new(Vec3::new(0, 0, 0), Vec3::new(0, 0, SCALE));
    assert!(matches!(s.hit(&r, 65, i64::MAX), HitRecord::Miss));
}

#[test]
fn interval_excludes_near_and_far_roots() {
    let s = Sphere::new(Vec3::new(0, 0, -SCALE), SCALE / 2, gray());
    let r = Ray::new(Vec3::new(0, 0, 0), Vec3::new(0, 0, -SCALE));
    // Both roots (0.5 and 1.5) sit below t_min: miss.
    assert!(matches!(s.hit(&r, 2 * SCALE, i64::MAX), HitRecord::Miss));
    // t_max below the first root: miss.
    assert!(matches!(s.hit(&r, 65, SCALE / 4), HitRecord::Miss));
    // Only the far root (t = 1.5) is inside the interval.
    match s.hit(&r, SCALE, i64::MAX) {
        HitRecord::Hit { t, front_face, normal, .. } => {
            assert_eq!(t, 3 * SCALE / 2);
            assert!(!front_face);
            assert_eq!((normal.x(), normal.y(), normal.z()), (0, 0, SCALE));
        },
        HitRecord::Miss => panic!("expected the far root"),
    }
}

#[test]
fn negative_radius_flips_the_reported_side() {
    // A hollow shell: the ray starts outside, but the outward normal
    // of a negative radius points inward, so the front flag flips.
    let s = Sphere::new(Vec3::new(0, 0, -SCALE), -(SCALE / 2), gray());
    let r = Ray::new(Vec3::new(0, 0, 0), Vec3::new(0, 0, -SCALE));
    match s.hit(&r, 65, i64::MAX) {
        HitRecord::Hit { t, normal, front_face, .. } => {
            assert_eq!(t, SCALE / 2);
            assert!(!front_face);
            // Flipped back to oppose the ray.
            assert_eq!((normal.x(), normal.y(), normal.z()), (0, 0, SCALE));
        },
        HitRecord::Miss => panic!("expected a hit on the shell"),
    }
}

#[test]
fn list_returns_the_nearest_hit_regardless_of_order() {
    let near = Sphere::new(Vec3::new(0, 0, -SCALE), SCALE / 4, gray());
    let far = Sphere::new(Vec3::new(0, 0, -2 * SCALE), SCALE / 2, gray());
    let r = Ray::new(Vec3::new(0, 0, 0), Vec3::new(0, 0, -SCALE));

    let mut a = HittableList::new();
    a.add(far);
    a.add(near);
    let mut b = HittableList::new();
    b.add(near);
    b.add(far);

    for world in [&a, &b] {
        match world.hit(&r, 65, i64::MAX) {
            HitRecord::Hit { t, .. } => assert_eq!(t, 3 * SCALE / 4),
            HitRecord::Miss => panic!("expected the near sphere"),
        }
    }
}

#[test]
fn equally_near_hits_keep_the_earlier_member() {
    // Two coincident spheres with different materials: a later
    // member must be strictly closer to replace the current best,
    // so the first one's material is reported.
    let first = Sphere::new(
        Vec3::new(0, 0, -SCALE),
        SCALE / 2,
        MaterialKind::Lambertian(Lambertian::new(Vec3::new(SCALE, 0, 0))),
    );
    let second = Sphere::new(
        Vec3::new(0, 0, -SCALE),
        SCALE / 2,
        MaterialKind::Metal(raytrace::material::Metal::new(Vec3::new(0, SCALE, 0), 0)),
    );
    let mut world = HittableList::new();
    world.add(first);
    world.add(second);
    let r = Ray::new(Vec3::new(0, 0, 0), Vec3::new(0, 0, -SCALE));
    match world.hit(&r, 65, i64::MAX) {
        HitRecord::Hit { t, material, .. } => {
            assert_eq!(t, SCALE / 2);
            assert!(matches!(material, MaterialKind::Lambertian(_)));
        },
        HitRecord::Miss => panic!("expected a hit"),
    }
}

#[test]
fn empty_scene_misses() {
    let world = HittableList::new();
    let r = Ray::new(Vec3::new(0, 0, 0), Vec3::new(0, 0, -SCALE));
    assert!(matches!(world.hit(&r, 65, i64::MAX), HitRecord::Miss));
}

#[test]
fn clear_empties_the_scene() {
    let mut world = HittableList::new();
    world.add(Sphere::new(Vec3::new(0, 0, -SCALE), SCALE / 2, gray()));
    let r = Ray::new(Vec3::new(0, 0, 0), Vec3::new(0, 0, -SCALE));
    assert!(matches!(world.hit(&r, 65, i64::MAX), HitRecord::Hit { .. }));
    world.clear();
    assert!(matches!(world.hit(&r, 65, i64::MAX), HitRecord::Miss));
}

#[test]
fn normals_oppose_the_incoming_ray() {
    // From inside the sphere: the outward normal would agree with
    // the ray, so the reported normal must be flipped.
    let s = Sphere::new(Vec3::new(0, 0, 0), SCALE, gray());
    let r = Ray::new(Vec3::new(0, 0, 0), Vec3::new(0, 0, -SCALE));
    match s.hit(&r, 65, i64::MAX) {
        HitRecord::Hit { normal, front_face, .. } => {
            assert!(!front_face);
            let d = (r.dir().x() as i128) * (normal.x() as i128)
                + (r.dir().y() as i128) * (normal.y() as i128)
                + (r.dir().z() as i128) * (normal.z() as i128);
            assert!(d <= 0);
        },
        HitRecord::Miss => panic!("expected a hit from inside"),
    }
}

#[test]
fn trait_dispatch_matches_the_inherent_query() {
    let s = Sphere::new(Vec3::new(0, 0, -SCALE), SCALE / 2, gray());
    let r = Ray::new(Vec3::new(0, 0, 0), Vec3::new(0, 0, -SCALE));
    let via_trait = <Sphere as Hittable>::hit(&s, &r, 65, i64::MAX);
    match via_trait {
        HitRecord::Hit { t, .. } => assert_eq!(t, SCALE / 2),
        HitRecord::Miss => panic!("expected a hit through the trait"),
    }
}
