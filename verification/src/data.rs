//! Per-run diagnostic counters.  The hot path only increments them; they
//! saturate instead of wrapping so that counting can never fail.

use vstd::prelude::*;

verus! {

/// Counters of the work a render performed.
#[derive(Clone, Copy, PartialEq, Eq, Structural, Debug)]
pub struct Data {
    pub primary_rays: usize,
    pub scatter_rays: usize,
    pub intersection_checks: usize,
    pub gridbox_checks: usize,
    pub traversal_steps: usize,
    pub overlapping_aabb: usize,
}

/// One saturating step.
pub open spec fn bump(x: usize) -> usize {
    if x < usize::MAX {
        (x + 1) as usize
    } else {
        x
    }
}

impl Data {
    pub fn new() -> (d: Data)
        ensures
            d.primary_rays == 0 && d.scatter_rays == 0 && d.intersection_checks == 0
                && d.gridbox_checks == 0 && d.traversal_steps == 0 && d.overlapping_aabb == 0,
    {
        Data {
            primary_rays: 0,
            scatter_rays: 0,
            intersection_checks: 0,
            gridbox_checks: 0,
            traversal_steps: 0,
            overlapping_aabb: 0,
        }
    }

    pub fn primary_rays(&self) -> (r: usize)
        ensures
            r == self.primary_rays,
    {
        self.primary_rays
    }

    pub fn scatter_rays(&self) -> (r: usize)
        ensures
            r == self.scatter_rays,
    {
        self.scatter_rays
    }

    pub fn intersection_checks(&self) -> (r: usize)
        ensures
            r == self.intersection_checks,
    {
        self.intersection_checks
    }

    pub fn traversal_steps(&self) -> (r: usize)
        ensures
            r == self.traversal_steps,
    {
        self.traversal_steps
    }

    pub fn overlapping_aabb(&self) -> (r: usize)
        ensures
            r == self.overlapping_aabb,
    {
        self.overlapping_aabb
    }

    pub fn add_primary_ray(&mut self)
        ensures
            *final(self) == (Data { primary_rays: bump(old(self).primary_rays), ..*old(self) }),
    {
        if self.primary_rays < usize::MAX {
            self.primary_rays = self.primary_rays + 1;
        }
    }

    pub fn add_scatter_ray(&mut self)
        ensures
            *final(self) == (Data { scatter_rays: bump(old(self).scatter_rays), ..*old(self) }),
    {
        if self.scatter_rays < usize::MAX {
            self.scatter_rays = self.scatter_rays + 1;
        }
    }

    pub fn add_intersection_check(&mut self)
        ensures
            *final(self) == (Data {
                intersection_checks: bump(old(self).intersection_checks),
                ..*old(self)
            }),
    {
        if self.intersection_checks < usize::MAX {
            self.intersection_checks = self.intersection_checks + 1;
        }
    }

    pub fn add_gridbox_intersection_check(&mut self)
        ensures
            *final(self) == (Data { gridbox_checks: bump(old(self).gridbox_checks), ..*old(self) }),
    {
        if self.gridbox_checks < usize::MAX {
            self.gridbox_checks = self.gridbox_checks + 1;
        }
    }

    pub fn add_traversal_step(&mut self)
        ensures
            *final(self) == (Data { traversal_steps: bump(old(self).traversal_steps), ..*old(self) }),
    {
        if self.traversal_steps < usize::MAX {
            self.traversal_steps = self.traversal_steps + 1;
        }
    }

    pub fn add_overlapping_aabb(&mut self)
        ensures
            *final(self) == (Data { overlapping_aabb: bump(old(self).overlapping_aabb), ..*old(self) }),
    {
        if self.overlapping_aabb < usize::MAX {
            self.overlapping_aabb = self.overlapping_aabb + 1;
        }
    }
}

} // verus!
