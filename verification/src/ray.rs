//! A parametric line: origin plus t times direction.

use vstd::prelude::*;
use crate::utility;
use crate::utility::{fdiv, lemma_fdiv_prod_in, SCALE, COORD_MAX};
use crate::vec3::{Vec3, in_box};

verus! {

/// One component of the point at parameter t on a ray: o + (t*d)/SCALE.
pub open spec fn at_c(o: int, d: int, t: int) -> int {
    o + fdiv(t * d, SCALE as int)
}

/// Both the origin and the direction lie in the world box.
pub open spec fn ray_wf(r: Ray) -> bool {
    &&& in_box(r.origin, COORD_MAX as int)
    &&& in_box(r.dir, COORD_MAX as int)
}

#[derive(Clone, Copy)]
pub struct Ray {
    pub origin: Vec3,
    pub dir: Vec3,
}

impl Ray {
    pub fn new(origin: Vec3, dir: Vec3) -> (r: Ray)
        ensures
            r.origin == origin,
            r.dir == dir,
    {
        Ray { origin, dir }
    }

    pub fn origin(&self) -> (r: Vec3)
        ensures
            r == self.origin,
    {
        self.origin
    }

    pub fn dir(&self) -> (r: Vec3)
        ensures
            r == self.dir,
    {
        self.dir
    }

    /// The point at parameter t: origin + t * dir, each component
    /// rounded down once.
    pub fn at(&self, t: i64) -> (r: Vec3)
        requires
            ray_wf(*self),
            -COORD_MAX <= t <= COORD_MAX,
        ensures
            r.x == at_c(self.origin.x as int, self.dir.x as int, t as int),
            r.y == at_c(self.origin.y as int, self.dir.y as int, t as int),
            r.z == at_c(self.origin.z as int, self.dir.z as int, t as int),
    {
        proof {
            lemma_fdiv_prod_in(
                t as int,
                self.dir.x as int,
                SCALE as int,
                COORD_MAX as int,
                COORD_MAX as int,
            );
            lemma_fdiv_prod_in(
                t as int,
                self.dir.y as int,
                SCALE as int,
                COORD_MAX as int,
                COORD_MAX as int,
            );
            lemma_fdiv_prod_in(
                t as int,
                self.dir.z as int,
                SCALE as int,
                COORD_MAX as int,
                COORD_MAX as int,
            );
        }
        let px: i128 = utility::div_floor((t as i128) * (self.dir.x as i128), SCALE as i128);
        let py: i128 = utility::div_floor((t as i128) * (self.dir.y as i128), SCALE as i128);
        let pz: i128 = utility::div_floor((t as i128) * (self.dir.z as i128), SCALE as i128);
        Vec3 {
            x: self.origin.x + (px as i64),
            y: self.origin.y + (py as i64),
            z: self.origin.z + (pz as i64),
        }
    }
}

} // verus!
