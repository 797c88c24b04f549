//! The surface-intersection abstraction: what a ray can hit, and
//! what a hit reports.

use vstd::prelude::*;
use crate::utility::{SCALE, COORD_MAX};
use crate::vec3::{Vec3, dotw, in_box};
use crate::ray::{Ray, ray_wf};
use crate::material::{MaterialKind, material_wf};
use crate::sphere::{
    Sphere, sphere_wf, sphere_hit, lemma_sphere_hit_tighten, lemma_sphere_hit_t_range,
};

verus! {

/// The outcome of an intersection query: either a hit carrying the
/// intersection point, the ray parameter, the (flipped-to-front)
/// normal, the side flag and the surface's material, or a miss.
#[derive(Clone, Copy)]
pub enum HitRecord {
    Hit { point: Vec3, t: i64, normal: Vec3, front_face: bool, material: MaterialKind },
    Miss,
}

/// What every reported hit satisfies: the parameter lies strictly
/// inside the queried interval, the point sits in the world box, the
/// normal is near unit length, and the normal opposes the incoming
/// ray (the front-facing convention).
pub open spec fn hit_record_ok(ray: Ray, rec: HitRecord, t_min: int, t_max: int) -> bool {
    match rec {
        HitRecord::Hit { point, t, normal, front_face, material } => {
            &&& t_min < t < t_max
            &&& in_box(point, COORD_MAX as int)
            &&& in_box(normal, 2 * SCALE as int)
            &&& 1 <= dotw(normal, normal)
            &&& dotw(ray.dir, normal) <= 0
            &&& material_wf(material)
        },
        HitRecord::Miss => true,
    }
}

/// Anything a ray can intersect, exposing a nearest-intersection
/// query over the open parameter interval (t_min, t_max).
pub trait Hittable {
    spec fn wf(&self) -> bool;

    fn hit(&self, ray: &Ray, t_min: i64, t_max: i64) -> (rec: HitRecord)
        requires
            self.wf(),
            ray_wf(*ray),
        ensures
            hit_record_ok(*ray, rec, t_min as int, t_max as int),
    ;
}

/// True when the record reports a hit.
pub open spec fn is_hit(rec: HitRecord) -> bool {
    rec is Hit
}

/// The reported parameter of a hit (0 on a miss).
pub open spec fn rec_t(rec: HitRecord) -> int {
    match rec {
        HitRecord::Hit { t, .. } => t as int,
        HitRecord::Miss => 0,
    }
}

/// The result of querying member i of the scene on its own, over the
/// full interval.
pub open spec fn ind_hit(l: Seq<Sphere>, ray: Ray, t_min: int, t_max: int, i: int) -> HitRecord {
    sphere_hit(l[i], ray, t_min, t_max)
}

/// Every member of the scene is a valid sphere.
pub open spec fn all_wf(l: Seq<Sphere>) -> bool {
    forall|i: int| 0 <= i < l.len() ==> sphere_wf(#[trigger] l[i])
}

/// What the scan has computed after its first k steps: the running
/// best record, each member queried with the interval tightened to
/// the best parameter so far.
pub open spec fn scene_hit_prefix(
    l: Seq<Sphere>,
    ray: Ray,
    t_min: int,
    t_max: int,
    k: int,
) -> HitRecord
    decreases k,
{
    if k <= 0 {
        HitRecord::Miss
    } else {
        let prev = scene_hit_prefix(l, ray, t_min, t_max, k - 1);
        let cur = match prev {
            HitRecord::Hit { t, .. } => sphere_hit(l[k - 1], ray, t_min, t as int),
            HitRecord::Miss => sphere_hit(l[k - 1], ray, t_min, t_max),
        };
        match cur {
            HitRecord::Hit { .. } => cur,
            HitRecord::Miss => prev,
        }
    }
}

/// The nearest hit in the scene, as a value: what `hit` returns.
pub open spec fn scene_hit(l: Seq<Sphere>, ray: Ray, t_min: int, t_max: int) -> HitRecord {
    scene_hit_prefix(l, ray, t_min, t_max, l.len() as int)
}

/// An ordered collection of spheres, queried for the nearest hit.
pub struct HittableList {
    pub list: Vec<Sphere>,
}

impl HittableList {
    pub fn new() -> (r: HittableList)
        ensures
            r.list@.len() == 0,
    {
        HittableList { list: Vec::new() }
    }

    pub fn add(&mut self, obj: Sphere)
        requires
            sphere_wf(obj),
        ensures
            final(self).list@ == old(self).list@.push(obj),
    {
        self.list.push(obj);
    }

    pub fn clear(&mut self)
        ensures
            final(self).list@.len() == 0,
    {
        self.list.clear();
    }

    /// The nearest hit among the members: the scan shrinks t_max to
    /// the closest hit found so far, so the result equals the
    /// minimum-parameter hit over querying each sphere independently
    /// with the full interval — the earliest such member on ties —
    /// and is Miss exactly when every member misses.
    pub fn hit(&self, ray: &Ray, t_min: i64, t_max: i64) -> (rec: HitRecord)
        requires
            all_wf(self.list@),
            ray_wf(*ray),
        ensures
            hit_record_ok(*ray, rec, t_min as int, t_max as int),
            rec == scene_hit(self.list@, *ray, t_min as int, t_max as int),
            (rec is Miss) <==> (forall|i: int|
                0 <= i < self.list@.len() ==> !is_hit(
                    #[trigger] ind_hit(self.list@, *ray, t_min as int, t_max as int, i),
                )),
            rec is Hit ==> exists|i: int|
                {
                    &&& 0 <= i < self.list@.len()
                    &&& #[trigger] ind_hit(self.list@, *ray, t_min as int, t_max as int, i) == rec
                    &&& forall|j: int|
                        0 <= j < i ==> !(is_hit(
                            #[trigger] ind_hit(self.list@, *ray, t_min as int, t_max as int, j),
                        ) && rec_t(ind_hit(self.list@, *ray, t_min as int, t_max as int, j))
                            <= rec_t(rec))
                },
            rec is Hit ==> forall|j: int|
                0 <= j < self.list@.len() && is_hit(
                    #[trigger] ind_hit(self.list@, *ray, t_min as int, t_max as int, j),
                ) ==> rec_t(ind_hit(self.list@, *ray, t_min as int, t_max as int, j)) >= rec_t(
                    rec,
                ),
    {
        let ghost l = self.list@;
        let ghost tm = t_min as int;
        let ghost tx = t_max as int;
        let mut rec = HitRecord::Miss;
        let mut closest: i64 = t_max;
        let mut k: usize = 0;
        while k < self.list.len()
            invariant
                l == self.list@,
                tm == t_min as int,
                tx == t_max as int,
                all_wf(l),
                ray_wf(*ray),
                0 <= k <= l.len(),
                rec == scene_hit_prefix(l, *ray, tm, tx, k as int),
                rec is Miss ==> closest == t_max && (forall|i: int|
                    0 <= i < k ==> !is_hit(#[trigger] ind_hit(l, *ray, tm, tx, i))),
                rec is Hit ==> {
                    &&& closest as int == rec_t(rec)
                    &&& hit_record_ok(*ray, rec, tm, tx)
                    &&& (closest as int) < tx
                    &&& tm < (closest as int)
                    &&& exists|i: int|
                        {
                            &&& 0 <= i < k
                            &&& #[trigger] ind_hit(l, *ray, tm, tx, i) == rec
                            &&& forall|j: int|
                                0 <= j < i ==> !(is_hit(#[trigger] ind_hit(l, *ray, tm, tx, j))
                                    && rec_t(ind_hit(l, *ray, tm, tx, j)) <= rec_t(rec))
                        }
                    &&& forall|j: int|
                        0 <= j < k && is_hit(#[trigger] ind_hit(l, *ray, tm, tx, j)) ==> rec_t(
                            ind_hit(l, *ray, tm, tx, j),
                        ) >= rec_t(rec)
                },
            decreases l.len() - k,
        {
            let s = self.list[k];
            let r2 = s.hit(ray, t_min, closest);
            proof {
                lemma_sphere_hit_tighten(l[k as int], *ray, tm, tx, closest as int);
                lemma_sphere_hit_t_range(l[k as int], *ray, tm, tx);
                assert(r2 == sphere_hit(l[k as int], *ray, tm, closest as int));
            }
            match r2 {
                HitRecord::Hit { t, .. } => {
                    proof {
                        assert(ind_hit(l, *ray, tm, tx, k as int) == r2);
                    }
                    rec = r2;
                    closest = t;
                },
                HitRecord::Miss => {
                    proof {
                        if rec is Miss {
                            assert(!is_hit(ind_hit(l, *ray, tm, tx, k as int)));
                        } else {
                            assert(is_hit(ind_hit(l, *ray, tm, tx, k as int)) ==> rec_t(
                                ind_hit(l, *ray, tm, tx, k as int),
                            ) >= rec_t(rec));
                        }
                    }
                },
            }
            k = k + 1;
        }
        rec
    }
}

impl Hittable for Sphere {
    open spec fn wf(&self) -> bool {
        sphere_wf(*self)
    }

    fn hit(&self, ray: &Ray, t_min: i64, t_max: i64) -> (rec: HitRecord) {
        Sphere::hit(self, ray, t_min, t_max)
    }
}

impl Hittable for HittableList {
    open spec fn wf(&self) -> bool {
        all_wf(self.list@)
    }

    fn hit(&self, ray: &Ray, t_min: i64, t_max: i64) -> (rec: HitRecord) {
        HittableList::hit(self, ray, t_min, t_max)
    }
}

} // verus!
