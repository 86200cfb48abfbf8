//! Integer 3-vectors.  World points, ray directions and face normals are
//! carried as fixed-point integers, so dot and cross products are exact.

use vstd::prelude::*;
use crate::num::lemma_mul_bound;

verus! {

/// Bound on world coordinates and ray directions, in fixed-point units.
pub const COORD_BOUND: i128 = 32768;

/// Bound on the operands of an exact dot or cross product.
pub const OP_BOUND: i128 = 0x1000_0000_0000_0000;

/// A vector of three fixed-point integer components.
#[derive(Clone, Copy, PartialEq, Eq, Structural, Debug)]
pub struct Vec3i {
    pub x: i128,
    pub y: i128,
    pub z: i128,
}

/// Every component within `[-b, b]`.
pub open spec fn v3_bounded(v: Vec3i, b: int) -> bool {
    -b <= v.x <= b && -b <= v.y <= b && -b <= v.z <= b
}

/// Exact dot product, as unbounded integers.
pub open spec fn sdot(a: Vec3i, b: Vec3i) -> int {
    a.x * b.x + a.y * b.y + a.z * b.z
}

/// Exact cross product, as unbounded integers; `scross` names its components.
pub open spec fn scross_x(a: Vec3i, b: Vec3i) -> int {
    a.y * b.z - a.z * b.y
}

pub open spec fn scross_y(a: Vec3i, b: Vec3i) -> int {
    a.z * b.x - a.x * b.z
}

pub open spec fn scross_z(a: Vec3i, b: Vec3i) -> int {
    a.x * b.y - a.y * b.x
}

impl Vec3i {
    pub fn new(x: i128, y: i128, z: i128) -> (v: Vec3i)
        ensures
            v.x == x && v.y == y && v.z == z,
    {
        Vec3i { x, y, z }
    }

    /// Componentwise difference.
    pub fn sub(&self, o: &Vec3i) -> (v: Vec3i)
        requires
            v3_bounded(*self, OP_BOUND as int),
            v3_bounded(*o, OP_BOUND as int),
        ensures
            v.x == self.x - o.x && v.y == self.y - o.y && v.z == self.z - o.z,
    {
        Vec3i { x: self.x - o.x, y: self.y - o.y, z: self.z - o.z }
    }

    /// Componentwise sum.
    pub fn add(&self, o: &Vec3i) -> (v: Vec3i)
        requires
            v3_bounded(*self, OP_BOUND as int),
            v3_bounded(*o, OP_BOUND as int),
        ensures
            v.x == self.x + o.x && v.y == self.y + o.y && v.z == self.z + o.z,
    {
        Vec3i { x: self.x + o.x, y: self.y + o.y, z: self.z + o.z }
    }

    /// Componentwise negation.
    pub fn neg(&self) -> (v: Vec3i)
        requires
            v3_bounded(*self, OP_BOUND as int),
        ensures
            v.x == -self.x && v.y == -self.y && v.z == -self.z,
    {
        Vec3i { x: -self.x, y: -self.y, z: -self.z }
    }

    /// Exact dot product.
    pub fn dot(&self, o: &Vec3i) -> (r: i128)
        requires
            v3_bounded(*self, OP_BOUND as int),
            v3_bounded(*o, OP_BOUND as int),
        ensures
            r == sdot(*self, *o),
            -3 * OP_BOUND * OP_BOUND <= r <= 3 * OP_BOUND * OP_BOUND,
    {
        proof {
            lemma_mul_bound(self.x as int, o.x as int, OP_BOUND as int, OP_BOUND as int);
            lemma_mul_bound(self.y as int, o.y as int, OP_BOUND as int, OP_BOUND as int);
            lemma_mul_bound(self.z as int, o.z as int, OP_BOUND as int, OP_BOUND as int);
        }
        self.x * o.x + self.y * o.y + self.z * o.z
    }

    /// Exact cross product.
    pub fn cross(&self, o: &Vec3i) -> (v: Vec3i)
        requires
            v3_bounded(*self, OP_BOUND as int),
            v3_bounded(*o, OP_BOUND as int),
        ensures
            v.x == scross_x(*self, *o),
            v.y == scross_y(*self, *o),
            v.z == scross_z(*self, *o),
            v3_bounded(v, 2 * OP_BOUND * OP_BOUND),
    {
        proof {
            lemma_mul_bound(self.y as int, o.z as int, OP_BOUND as int, OP_BOUND as int);
            lemma_mul_bound(self.z as int, o.y as int, OP_BOUND as int, OP_BOUND as int);
            lemma_mul_bound(self.z as int, o.x as int, OP_BOUND as int, OP_BOUND as int);
            lemma_mul_bound(self.x as int, o.z as int, OP_BOUND as int, OP_BOUND as int);
            lemma_mul_bound(self.x as int, o.y as int, OP_BOUND as int, OP_BOUND as int);
            lemma_mul_bound(self.y as int, o.x as int, OP_BOUND as int, OP_BOUND as int);
        }
        Vec3i {
            x: self.y * o.z - self.z * o.y,
            y: self.z * o.x - self.x * o.z,
            z: self.x * o.y - self.y * o.x,
        }
    }
}

} // verus!
