//! Integer lattice points and integer boxes, used to address voxels of the
//! uniform grid by their coordinates.

use vstd::prelude::*;

verus! {

/// A point on the integer lattice, one coordinate per axis.
#[derive(Clone, Copy, PartialEq, Eq, Structural, Debug)]
pub struct IntPoint {
    pub x: i32,
    pub y: i32,
    pub z: i32,
}

impl IntPoint {
    pub fn new(x: i32, y: i32, z: i32) -> (p: IntPoint)
        ensures
            p.x == x && p.y == y && p.z == z,
    {
        IntPoint { x, y, z }
    }

    pub fn x(&self) -> (r: i32)
        ensures
            r == self.x,
    {
        self.x
    }

    pub fn y(&self) -> (r: i32)
        ensures
            r == self.y,
    {
        self.y
    }

    pub fn z(&self) -> (r: i32)
        ensures
            r == self.z,
    {
        self.z
    }
}

/// An axis-aligned box on the integer lattice, given by two opposite corners.
#[derive(Clone, Copy, PartialEq, Eq, Structural, Debug)]
pub struct IntBox {
    pub min: IntPoint,
    pub max: IntPoint,
}

impl IntBox {
    pub fn new(min: IntPoint, max: IntPoint) -> (b: IntBox)
        ensures
            b.min == min && b.max == max,
    {
        IntBox { min, max }
    }

    /// Whether `other` lies within the box, bounds included on every axis.
    pub fn is_inside(&self, other: IntPoint) -> (r: bool)
        ensures
            r == (self.min.x <= other.x <= self.max.x
                && self.min.y <= other.y <= self.max.y
                && self.min.z <= other.z <= self.max.z),
    {
        self.min.x <= other.x && self.min.y <= other.y && self.min.z <= other.z
            && self.max.x >= other.x && self.max.y >= other.y && self.max.z >= other.z
    }
}

} // verus!
