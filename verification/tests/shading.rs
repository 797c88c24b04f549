//! Material scattering and the recursive color accumulation.

use raytrace::utility::SCALE;
use raytrace::vec3::Vec3;
use raytrace::ray::Ray;
use raytrace::hittable::{HitRecord, HittableList};
use raytrace::sphere::Sphere;
use raytrace::material::{Dielectric, Lambertian, Material, MaterialData, MaterialKind, Metal};
use raytrace::color::ray_color;

fn head_on_hit() -> (Ray, Vec3, Vec3) {
    // Ray (0,0,0) -> (0,0,-1) meeting the sphere centered (0,0,-1)
    // of radius 0.5: point (0,0,-0.5), unit normal (0,0,1).
    let ray = Ray::new(Vec3::new(0, 0, 0), Vec3::new(0, 0, -SCALE));
    let point = Vec3::new(0, 0, -SCALE / 2);
    let normal = Vec3::new(0, 0, SCALE);
    (ray, point, normal)
}

#[test]
fn metal_with_zero_fuzz_mirrors_at_normal_incidence() {
    let albedo = Vec3::new(52428, 39321, 13107);
    let metal = Metal::new(albedo, 0);
    let (ray, point, normal) = head_on_hit();
    let samp = Vec3::new(123, -456, 789);
    match metal.scatter_with(&ray, point, normal, samp) {
        MaterialData::Scatter { attenuation, scattered } => {
            assert_eq!(
                (attenuation.x(), attenuation.y(), attenuation.z()),
                (albedo.x(), albedo.y(), albedo.z()),
            );
            assert_eq!((scattered.origin().x(), scattered.origin().z()), (0, -SCALE / 2));
            assert_eq!(
                (scattered.dir().x(), scattered.dir().y(), scattered.dir().z()),
                (0, 0, SCALE),
            );
        },
        MaterialData::Not => panic!("head-on metal reflection must scatter"),
    }
}

#[test]
fn metal_absorbs_when_the_fuzzed_ray_enters_the_surface() {
    let metal = Metal::new(Vec3::new(SCALE, SCALE, SCALE), SCALE);
    let (ray, point, normal) = head_on_hit();
    // The fuzz sample cancels the reflection exactly: the scattered
    // direction no longer points away from the surface.
    let samp = Vec3::new(0, 0, -SCALE);
    assert!(matches!(
        metal.scatter_with(&ray, point, normal, samp),
        MaterialData::Not
    ));
}

#[test]
fn metal_fuzz_is_clamped_at_construction() {
    let m = Metal::new(Vec3::new(0, 0, 0), 3 * SCALE);
    assert_eq!(m.fuzz, SCALE);
    let m2 = Metal::new(Vec3::new(0, 0, 0), -5);
    assert_eq!(m2.fuzz, 0);
}

#[test]
fn lambertian_scatters_with_albedo_and_near_zero_fallback() {
    let albedo = Vec3::new(6553, 13107, 32768);
    let lam = Lambertian::new(albedo);
    let (_, point, normal) = head_on_hit();
    // The sample exactly cancels the normal: the direction falls
    // back to the normal itself.
    let samp = Vec3::new(0, 0, -SCALE);
    match lam.scatter_with(point, normal, samp) {
        MaterialData::Scatter { attenuation, scattered } => {
            assert_eq!(attenuation.x(), albedo.x());
            assert_eq!(
                (scattered.dir().x(), scattered.dir().y(), scattered.dir().z()),
                (0, 0, SCALE),
            );
        },
        MaterialData::Not => panic!("a diffuse surface always scatters"),
    }
    // An ordinary sample is simply added to the normal.
    let samp2 = Vec3::new(100, -200, 300);
    match lam.scatter_with(point, normal, samp2) {
        MaterialData::Scatter { scattered, .. } => {
            assert_eq!(
                (scattered.dir().x(), scattered.dir().y(), scattered.dir().z()),
                (100, -200, SCALE + 300),
            );
        },
        MaterialData::Not => panic!("a diffuse surface always scatters"),
    }
}

#[test]
fn dielectric_with_unit_index_refracts_straight_through() {
    let glass = Dielectric::new(SCALE);
    let (ray, point, normal) = head_on_hit();
    for u in [0i64, 1, SCALE / 2, SCALE - 1] {
        match glass.scatter_with(&ray, point, normal, true, u) {
            MaterialData::Scatter { attenuation, scattered } => {
                assert_eq!(
                    (attenuation.x(), attenuation.y(), attenuation.z()),
                    (SCALE, SCALE, SCALE),
                );
                assert_eq!(
                    (scattered.dir().x(), scattered.dir().y(), scattered.dir().z()),
                    (0, 0, -SCALE),
                );
            },
            MaterialData::Not => panic!("a dielectric always scatters"),
        }
    }
}

#[test]
fn diffuse_and_glass_always_scatter_from_a_hit() {
    let (ray, point, normal) = head_on_hit();
    let albedo = Vec3::new(SCALE / 2, SCALE / 3, SCALE / 4);
    let rec = HitRecord::Hit {
        point,
        t: SCALE / 2,
        normal,
        front_face: true,
        material: MaterialKind::Lambertian(Lambertian::new(albedo)),
    };
    for _ in 0..10 {
        let lam = MaterialKind::Lambertian(Lambertian::new(albedo));
        match lam.scatter(&ray, &rec) {
            MaterialData::Scatter { attenuation, scattered } => {
                assert_eq!(attenuation.x(), albedo.x());
                assert_eq!(attenuation.y(), albedo.y());
                assert_eq!(attenuation.z(), albedo.z());
                assert_eq!(scattered.origin().z(), point.z());
            },
            MaterialData::Not => panic!("a diffuse surface never absorbs a hit"),
        }
        let glass = MaterialKind::Dielectric(Dielectric::new(3 * SCALE / 2));
        match glass.scatter(&ray, &rec) {
            MaterialData::Scatter { attenuation, .. } => {
                assert_eq!(
                    (attenuation.x(), attenuation.y(), attenuation.z()),
                    (SCALE, SCALE, SCALE),
                );
            },
            MaterialData::Not => panic!("a dielectric never absorbs a hit"),
        }
    }
}

#[test]
fn first_hit_on_a_diffuse_surface_caps_the_color_at_its_albedo() {
    let albedo = Vec3::new(SCALE / 2, SCALE / 5, SCALE / 8);
    let mut world = HittableList::new();
    world.add(Sphere::new(
        Vec3::new(0, 0, -SCALE),
        SCALE / 2,
        MaterialKind::Lambertian(Lambertian::new(albedo)),
    ));
    let ray = Ray::new(Vec3::new(0, 0, 0), Vec3::new(0, 0, -SCALE));
    for _ in 0..10 {
        let c = ray_color(&ray, &world, 6);
        assert!(0 <= c.x() && c.x() <= albedo.x());
        assert!(0 <= c.y() && c.y() <= albedo.y());
        assert!(0 <= c.z() && c.z() <= albedo.z());
    }
}

#[test]
fn scattering_from_a_miss_is_absorption() {
    let ray = Ray::new(Vec3::new(0, 0, 0), Vec3::new(0, 0, -SCALE));
    let lam = Lambertian::new(Vec3::new(0, 0, 0));
    assert!(matches!(lam.scatter(&ray, &HitRecord::Miss), MaterialData::Not));
    let metal = Metal::new(Vec3::new(0, 0, 0), 0);
    assert!(matches!(metal.scatter(&ray, &HitRecord::Miss), MaterialData::Not));
    let glass = Dielectric::new(SCALE);
    assert!(matches!(glass.scatter(&ray, &HitRecord::Miss), MaterialData::Not));
}

#[test]
fn exhausted_depth_is_black_regardless_of_the_scene() {
    let mut world = HittableList::new();
    world.add(Sphere::new(
        Vec3::new(0, 0, -SCALE),
        SCALE / 2,
        MaterialKind::Lambertian(Lambertian::new(Vec3::new(SCALE, 0, 0))),
    ));
    let ray = Ray::new(Vec3::new(0, 0, 0), Vec3::new(0, 0, -SCALE));
    let c = ray_color(&ray, &world, -1);
    assert_eq!((c.x(), c.y(), c.z()), (0, 0, 0));
}

#[test]
fn empty_scene_returns_the_sky_gradient() {
    let world = HittableList::new();
    // Looking straight down: the unit y is -1, the blend weight 0,
    // and the sky is pure white.
    let down = Ray::new(Vec3::new(0, 0, 0), Vec3::new(0, -SCALE, 0));
    let c = ray_color(&down, &world, 5);
    assert_eq!((c.x(), c.y(), c.z()), (SCALE, SCALE, SCALE));
    // Looking along -z: the blend weight is 1/2.
    let level = Ray::new(Vec3::new(0, 0, 0), Vec3::new(0, 0, -SCALE));
    let c2 = ray_color(&level, &world, 5);
    assert_eq!((c2.x(), c2.y(), c2.z()), (49152, 55705, SCALE));
    // Looking straight up: pure sky blue.
    let up = Ray::new(Vec3::new(0, 0, 0), Vec3::new(0, SCALE, 0));
    let c3 = ray_color(&up, &world, 5);
    assert_eq!((c3.x(), c3.y(), c3.z()), (32768, 45875, SCALE));
}

#[test]
fn traced_colors_stay_in_the_unit_cube() {
    let mut world = HittableList::new();
    world.add(Sphere::new(
        Vec3::new(0, 0, -SCALE),
        SCALE / 2,
        MaterialKind::Lambertian(Lambertian::new(Vec3::new(SCALE / 2, SCALE / 3, SCALE / 4))),
    ));
    world.add(Sphere::new(
        Vec3::new(0, -100 * SCALE - SCALE / 2, -SCALE),
        100 * SCALE,
        MaterialKind::Metal(Metal::new(Vec3::new(SCALE / 2, SCALE / 2, SCALE / 2), 0)),
    ));
    let ray = Ray::new(Vec3::new(0, 0, 0), Vec3::new(0, 0, -SCALE));
    for _ in 0..10 {
        let c = ray_color(&ray, &world, 8);
        assert!(0 <= c.x() && c.x() <= SCALE);
        assert!(0 <= c.y() && c.y() <= SCALE);
        assert!(0 <= c.z() && c.z() <= SCALE);
    }
}
