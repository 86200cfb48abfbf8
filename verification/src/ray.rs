//! Rays with fixed-point origin and direction, and the exact rational point
//! a ray reaches at a given parameter.

use vstd::prelude::*;
use crate::vec3i::{Vec3i, v3_bounded, COORD_BOUND};
use crate::rat::Rat;

verus! {

/// A ray `origin + t * direction`.  The direction need not be unit length,
/// but must not be zero.
#[derive(Clone, Copy, Debug)]
pub struct Ray {
    pub orig: Vec3i,
    pub dir: Vec3i,
}

/// Well-formed: both vectors within the world coordinate bound and the
/// direction nonzero.
pub open spec fn ray_wf(r: Ray) -> bool {
    &&& v3_bounded(r.orig, COORD_BOUND as int)
    &&& v3_bounded(r.dir, COORD_BOUND as int)
    &&& !(r.dir.x == 0 && r.dir.y == 0 && r.dir.z == 0)
}

/// Numerator of one coordinate of the point the ray reaches at `t`; the
/// denominator is `t.den`.
pub open spec fn at_num(o: int, d: int, t: Rat) -> int {
    o * t.den + t.num * d
}

/// The coordinate `o + t * d` lies within `[mn, mx]`.
pub open spec fn at_in_range(o: int, d: int, t: Rat, mn: int, mx: int) -> bool {
    mn * t.den <= at_num(o, d, t) <= mx * t.den
}

impl Ray {
    pub fn new(orig: Vec3i, dir: Vec3i) -> (r: Ray)
        ensures
            r.orig == orig && r.dir == dir,
    {
        Ray { orig, dir }
    }
}

} // verus!
