//! Axis-aligned bounding boxes with exact containment, overlap, union and
//! surface area, in fixed-point integer coordinates.

use vstd::prelude::*;
use crate::num::lemma_mul_bound;
use crate::rat::{Rat, rat_wf, NUM_BOUND, DEN_BOUND};
use crate::vec3i::{Vec3i, v3_bounded, COORD_BOUND};

verus! {

/// The smaller of two integers.
pub open spec fn imin(a: int, b: int) -> int {
    if a <= b {
        a
    } else {
        b
    }
}

/// The larger of two integers.
pub open spec fn imax(a: int, b: int) -> int {
    if a <= b {
        b
    } else {
        a
    }
}

/// An axis-aligned box given by its two extreme corners.
#[derive(Clone, Copy, PartialEq, Eq, Structural, Debug)]
pub struct AABB {
    pub min: Vec3i,
    pub max: Vec3i,
}

/// Well-formed: corners ordered on every axis and within the world bound.
pub open spec fn aabb_wf(b: AABB) -> bool {
    &&& v3_bounded(b.min, COORD_BOUND as int)
    &&& v3_bounded(b.max, COORD_BOUND as int)
    &&& b.min.x <= b.max.x
    &&& b.min.y <= b.max.y
    &&& b.min.z <= b.max.z
}

/// An integer point lies in the box, boundary included.
pub open spec fn contains_int(b: AABB, p: Vec3i) -> bool {
    &&& b.min.x <= p.x <= b.max.x
    &&& b.min.y <= p.y <= b.max.y
    &&& b.min.z <= p.z <= b.max.z
}

/// A rational point lies in the box, boundary included.
pub open spec fn contains_rat(b: AABB, px: Rat, py: Rat, pz: Rat) -> bool {
    &&& b.min.x * px.den <= px.num <= b.max.x * px.den
    &&& b.min.y * py.den <= py.num <= b.max.y * py.den
    &&& b.min.z * pz.den <= pz.num <= b.max.z * pz.den
}

/// The two boxes share at least one point (closed boxes).
pub open spec fn overlap(a: AABB, b: AABB) -> bool {
    &&& a.max.x >= b.min.x && a.min.x <= b.max.x
    &&& a.max.y >= b.min.y && a.min.y <= b.max.y
    &&& a.max.z >= b.min.z && a.min.z <= b.max.z
}

/// The smallest box containing both arguments.
pub open spec fn union_spec(a: AABB, b: AABB) -> AABB {
    AABB {
        min: Vec3i {
            x: imin(a.min.x as int, b.min.x as int) as i128,
            y: imin(a.min.y as int, b.min.y as int) as i128,
            z: imin(a.min.z as int, b.min.z as int) as i128,
        },
        max: Vec3i {
            x: imax(a.max.x as int, b.max.x as int) as i128,
            y: imax(a.max.y as int, b.max.y as int) as i128,
            z: imax(a.max.z as int, b.max.z as int) as i128,
        },
    }
}

/// Folding boxes together is commutative.
pub proof fn lemma_union_comm(a: AABB, b: AABB)
    ensures
        union_spec(a, b) == union_spec(b, a),
{
}

/// Folding boxes together is associative.
pub proof fn lemma_union_assoc(a: AABB, b: AABB, c: AABB)
    ensures
        union_spec(a, union_spec(b, c)) == union_spec(union_spec(a, b), c),
{
}

/// The union contains every point of either argument, and is well-formed.
pub proof fn lemma_union_contains(a: AABB, b: AABB)
    requires
        aabb_wf(a),
        aabb_wf(b),
    ensures
        aabb_wf(union_spec(a, b)),
        forall|p: Vec3i| contains_int(a, p) ==> contains_int(union_spec(a, b), p),
        forall|p: Vec3i| contains_int(b, p) ==> contains_int(union_spec(a, b), p),
        forall|px: Rat, py: Rat, pz: Rat|
            px.den > 0 && py.den > 0 && pz.den > 0 && contains_rat(a, px, py, pz)
                ==> contains_rat(union_spec(a, b), px, py, pz),
        forall|px: Rat, py: Rat, pz: Rat|
            px.den > 0 && py.den > 0 && pz.den > 0 && contains_rat(b, px, py, pz)
                ==> contains_rat(union_spec(a, b), px, py, pz),
{
    let u = union_spec(a, b);
    assert forall|px: Rat, py: Rat, pz: Rat|
        px.den > 0 && py.den > 0 && pz.den > 0 && contains_rat(a, px, py, pz)
            implies contains_rat(u, px, py, pz) by {
        lemma_rat_bound_mono(u.min.x as int, a.min.x as int, px);
        lemma_rat_bound_mono(u.min.y as int, a.min.y as int, py);
        lemma_rat_bound_mono(u.min.z as int, a.min.z as int, pz);
        lemma_rat_bound_mono_up(a.max.x as int, u.max.x as int, px);
        lemma_rat_bound_mono_up(a.max.y as int, u.max.y as int, py);
        lemma_rat_bound_mono_up(a.max.z as int, u.max.z as int, pz);
    }
    assert forall|px: Rat, py: Rat, pz: Rat|
        px.den > 0 && py.den > 0 && pz.den > 0 && contains_rat(b, px, py, pz)
            implies contains_rat(u, px, py, pz) by {
        lemma_rat_bound_mono(u.min.x as int, b.min.x as int, px);
        lemma_rat_bound_mono(u.min.y as int, b.min.y as int, py);
        lemma_rat_bound_mono(u.min.z as int, b.min.z as int, pz);
        lemma_rat_bound_mono_up(b.max.x as int, u.max.x as int, px);
        lemma_rat_bound_mono_up(b.max.y as int, u.max.y as int, py);
        lemma_rat_bound_mono_up(b.max.z as int, u.max.z as int, pz);
    }
}

/// A smaller lower bound also bounds a rational coordinate from below.
proof fn lemma_rat_bound_mono(lo2: int, lo1: int, p: Rat)
    requires
        p.den > 0,
        lo2 <= lo1,
    ensures
        lo1 * p.den <= p.num ==> lo2 * p.den <= p.num,
{
    assert(lo2 * p.den <= lo1 * p.den) by (nonlinear_arith)
        requires
            p.den > 0,
            lo2 <= lo1,
    ;
}

/// A larger upper bound also bounds a rational coordinate from above.
proof fn lemma_rat_bound_mono_up(hi1: int, hi2: int, p: Rat)
    requires
        p.den > 0,
        hi1 <= hi2,
    ensures
        p.num <= hi1 * p.den ==> p.num <= hi2 * p.den,
{
    assert(hi1 * p.den <= hi2 * p.den) by (nonlinear_arith)
        requires
            p.den > 0,
            hi1 <= hi2,
    ;
}

impl AABB {
    pub fn new(min: Vec3i, max: Vec3i) -> (b: AABB)
        ensures
            b.min == min && b.max == max,
    {
        AABB { min, max }
    }

    /// The smallest box containing this box and `rhs`.
    pub fn add(&self, rhs: &AABB) -> (u: AABB)
        requires
            aabb_wf(*self),
            aabb_wf(*rhs),
        ensures
            u == union_spec(*self, *rhs),
            aabb_wf(u),
    {
        let min = Vec3i::new(
            if self.min.x <= rhs.min.x { self.min.x } else { rhs.min.x },
            if self.min.y <= rhs.min.y { self.min.y } else { rhs.min.y },
            if self.min.z <= rhs.min.z { self.min.z } else { rhs.min.z },
        );
        let max = Vec3i::new(
            if self.max.x <= rhs.max.x { rhs.max.x } else { self.max.x },
            if self.max.y <= rhs.max.y { rhs.max.y } else { self.max.y },
            if self.max.z <= rhs.max.z { rhs.max.z } else { self.max.z },
        );
        AABB { min, max }
    }

    /// Whether this box and `other` share a point.  Overlap is symmetric.
    pub fn inside(&self, other: &AABB) -> (r: bool)
        ensures
            r == overlap(*self, *other),
            r == overlap(*other, *self),
    {
        self.max.x >= other.min.x && self.min.x <= other.max.x
            && self.max.y >= other.min.y && self.min.y <= other.max.y
            && self.max.z >= other.min.z && self.min.z <= other.max.z
    }

    /// Whether the integer point lies in the box, boundary included.
    pub fn point_inside(&self, point: &Vec3i) -> (r: bool)
        ensures
            r == contains_int(*self, *point),
    {
        self.min.x <= point.x && self.max.x >= point.x
            && self.min.y <= point.y && self.max.y >= point.y
            && self.min.z <= point.z && self.max.z >= point.z
    }

    /// Whether the rational point lies in the box, boundary included.
    pub fn contains_rat_point(&self, px: &Rat, py: &Rat, pz: &Rat) -> (r: bool)
        requires
            aabb_wf(*self),
            rat_wf(*px),
            rat_wf(*py),
            rat_wf(*pz),
        ensures
            r == contains_rat(*self, *px, *py, *pz),
    {
        proof {
            lemma_mul_bound(self.min.x as int, px.den as int, COORD_BOUND as int, DEN_BOUND as int);
            lemma_mul_bound(self.max.x as int, px.den as int, COORD_BOUND as int, DEN_BOUND as int);
            lemma_mul_bound(self.min.y as int, py.den as int, COORD_BOUND as int, DEN_BOUND as int);
            lemma_mul_bound(self.max.y as int, py.den as int, COORD_BOUND as int, DEN_BOUND as int);
            lemma_mul_bound(self.min.z as int, pz.den as int, COORD_BOUND as int, DEN_BOUND as int);
            lemma_mul_bound(self.max.z as int, pz.den as int, COORD_BOUND as int, DEN_BOUND as int);
        }
        self.min.x * px.den <= px.num && px.num <= self.max.x * px.den
            && self.min.y * py.den <= py.num && py.num <= self.max.y * py.den
            && self.min.z * pz.den <= pz.num && pz.num <= self.max.z * pz.den
    }

    /// Twice the surface area would carry a factor the heuristic never needs;
    /// the comparator value `dx*dy + dx*dz + dy*dz` is returned doubled to
    /// match the usual formula.
    pub fn surface_area(&self) -> (r: i128)
        requires
            aabb_wf(*self),
        ensures
            r == 2 * ((self.max.x - self.min.x) * (self.max.y - self.min.y)
                + (self.max.x - self.min.x) * (self.max.z - self.min.z)
                + (self.max.y - self.min.y) * (self.max.z - self.min.z)),
            0 <= r <= 24 * COORD_BOUND * COORD_BOUND,
    {
        let dx = self.max.x - self.min.x;
        let dy = self.max.y - self.min.y;
        let dz = self.max.z - self.min.z;
        proof {
            lemma_mul_bound(dx as int, dy as int, 2 * COORD_BOUND as int, 2 * COORD_BOUND as int);
            lemma_mul_bound(dx as int, dz as int, 2 * COORD_BOUND as int, 2 * COORD_BOUND as int);
            lemma_mul_bound(dy as int, dz as int, 2 * COORD_BOUND as int, 2 * COORD_BOUND as int);
            lemma_sq_nonneg(dx as int, dy as int);
            lemma_sq_nonneg(dx as int, dz as int);
            lemma_sq_nonneg(dy as int, dz as int);
        }
        2 * (dx * dy + dx * dz + dy * dz)
    }
}

/// The product of two nonnegative integers is nonnegative.
proof fn lemma_sq_nonneg(a: int, b: int)
    requires
        a >= 0,
        b >= 0,
    ensures
        a * b >= 0,
{
    assert(a * b >= 0) by (nonlinear_arith)
        requires
            a >= 0,
            b >= 0,
    ;
}

/// The exit face a ray leaves a box through: an axis and a direction.
#[derive(Clone, Copy, PartialEq, Eq, Structural, Debug)]
pub struct Exit {
    pub axis: u32,
    pub direction: i8,
}

impl Exit {
    pub fn set(&mut self, axis: u32, direction: i8)
        ensures
            final(self).axis == axis,
            final(self).direction == direction,
    {
        self.axis = axis;
        self.direction = direction;
    }
}

} // verus!
