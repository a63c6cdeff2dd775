//! A plane of the rendered scene, and where a ray meets it.

use crate::geometry::{bounded, diff, Triple, Vec3d, COORD_LIMIT, UNIT};
use vstd::prelude::*;

verus! {

pub open spec fn dot(a: Triple, b: Triple) -> int {
    a.0 * b.0 + a.1 * b.1 + a.2 * b.2
}

/// The plane through `position` whose normal is `normal`.
#[derive(Clone, Copy, Debug, PartialEq, Eq, Structural)]
pub struct Plane {
    pub position: Vec3d,
    pub normal: Vec3d,
}

fn dot_i128(a: (i128, i128, i128), b: Vec3d) -> (r: i128)
    requires
        -2 * COORD_LIMIT <= a.0 <= 2 * COORD_LIMIT,
        -2 * COORD_LIMIT <= a.1 <= 2 * COORD_LIMIT,
        -2 * COORD_LIMIT <= a.2 <= 2 * COORD_LIMIT,
        bounded(b@, COORD_LIMIT as int),
    ensures
        r == dot((a.0 as int, a.1 as int, a.2 as int), b@),
        -12 * COORD_LIMIT * COORD_LIMIT <= r <= 12 * COORD_LIMIT * COORD_LIMIT,
{
    proof {
        lemma_product_bound(a.0 as int, b.x as int);
        lemma_product_bound(a.1 as int, b.y as int);
        lemma_product_bound(a.2 as int, b.z as int);
    }
    a.0 * (b.x as i128) + a.1 * (b.y as i128) + a.2 * (b.z as i128)
}

proof fn lemma_product_bound(a: int, b: int)
    requires
        -2 * COORD_LIMIT <= a <= 2 * COORD_LIMIT,
        -COORD_LIMIT <= b <= COORD_LIMIT,
    ensures
        -4 * COORD_LIMIT * COORD_LIMIT <= a * b <= 4 * COORD_LIMIT * COORD_LIMIT,
{
    assert(-4 * COORD_LIMIT * COORD_LIMIT <= a * b <= 4 * COORD_LIMIT * COORD_LIMIT)
        by (nonlinear_arith)
        requires
            -2 * COORD_LIMIT <= a <= 2 * COORD_LIMIT,
            -COORD_LIMIT <= b <= COORD_LIMIT,
            COORD_LIMIT > 0,
    ;
}

impl Plane {
    /// Where the ray from `origin` along `direction` meets the plane, as
    /// the ray parameter in ticks (the distance, for a direction of length
    /// `UNIT`), rounded toward zero. `None` when the ray runs parallel to the
    /// plane or the plane lies behind the origin.
    pub fn intersect(&self, origin: Vec3d, direction: Vec3d) -> (r: Option<i128>)
        requires
            bounded(self.position@, COORD_LIMIT as int),
            bounded(self.normal@, COORD_LIMIT as int),
            bounded(origin@, COORD_LIMIT as int),
            bounded(direction@, COORD_LIMIT as int),
        ensures
            ({
                let denom = dot(self.normal@, direction@);
                let num = dot(diff(self.position@, origin@), self.normal@);
                &&& r is None <==> (denom == 0 || (num < 0 && denom > 0) || (num > 0 && denom < 0))
                &&& r matches Some(t) ==> t == (if num >= 0 { num } else { -num }) * UNIT / (if denom
                    >= 0 { denom } else { -denom })
            }),
    {
        let denom = dot_i128(
            (direction.x as i128, direction.y as i128, direction.z as i128),
            self.normal,
        );
        let v = (
            self.position.x as i128 - origin.x as i128,
            self.position.y as i128 - origin.y as i128,
            self.position.z as i128 - origin.z as i128,
        );
        let num = dot_i128(v, self.normal);
        proof {
            assert(dot(self.normal@, direction@) == dot(
                (direction.x as int, direction.y as int, direction.z as int),
                self.normal@,
            )) by (nonlinear_arith);
        }
        if denom == 0 || (num < 0 && denom > 0) || (num > 0 && denom < 0) {
            return None;
        }
        let n = if num >= 0 {
            num
        } else {
            -num
        };
        let d = if denom >= 0 {
            denom
        } else {
            -denom
        };
        Some(n * (UNIT as i128) / d)
    }

    /// The normal seen from the side a ray arrives on.
    pub fn normal(&self, hit_point: Vec3d) -> (r: Vec3d)
        requires
            bounded(self.normal@, COORD_LIMIT as int),
        ensures
            r@ == (-self.normal@.0, -self.normal@.1, -self.normal@.2),
    {
        Vec3d { x: -self.normal.x, y: -self.normal.y, z: -self.normal.z }
    }
}

} // verus!
