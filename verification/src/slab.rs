//! The slab test: the exact parametric interval over which a ray stays
//! inside a box.  Each axis clips the running interval; an empty interval
//! (exit at or before entry) is a miss.

use vstd::prelude::*;
use crate::aabb::{AABB, aabb_wf, Exit};
use crate::rat::{Rat, rat_wf, rle, rlt, NUM_BOUND, DEN_BOUND};
use crate::ray::{Ray, ray_wf, at_in_range};
use crate::vec3i::COORD_BOUND;

verus! {

/// The larger of two rationals, keeping the first on ties.
pub open spec fn rmax(a: Rat, b: Rat) -> Rat {
    if rlt(a, b) {
        b
    } else {
        a
    }
}

/// The smaller of two rationals, keeping the first on ties.
pub open spec fn rmin(a: Rat, b: Rat) -> Rat {
    if rlt(b, a) {
        b
    } else {
        a
    }
}

/// Parameter at which the ray enters the slab `[mn, mx]` on one axis.
/// Meaningful only when `d != 0`.
pub open spec fn axis_enter(o: int, d: int, mn: int, mx: int) -> Rat {
    if d > 0 {
        Rat { num: (mn - o) as i128, den: d as i128 }
    } else {
        Rat { num: (o - mx) as i128, den: (-d) as i128 }
    }
}

/// Parameter at which the ray leaves the slab `[mn, mx]` on one axis.
pub open spec fn axis_exit(o: int, d: int, mn: int, mx: int) -> Rat {
    if d > 0 {
        Rat { num: (mx - o) as i128, den: d as i128 }
    } else {
        Rat { num: (o - mn) as i128, den: (-d) as i128 }
    }
}

/// Clip the running lower bound by one axis.
pub open spec fn step_enter(cur: Rat, o: int, d: int, mn: int, mx: int) -> Rat {
    if d != 0 {
        rmax(cur, axis_enter(o, d, mn, mx))
    } else {
        cur
    }
}

/// Clip the running upper bound by one axis.
pub open spec fn step_exit(cur: Rat, o: int, d: int, mn: int, mx: int) -> Rat {
    if d != 0 {
        rmin(cur, axis_exit(o, d, mn, mx))
    } else {
        cur
    }
}

/// The final lower bound of the slab interval, starting from `base`.
pub open spec fn box_enter(b: AABB, r: Ray, base: Rat) -> Rat {
    step_enter(
        step_enter(
            step_enter(base, r.orig.x as int, r.dir.x as int, b.min.x as int, b.max.x as int),
            r.orig.y as int, r.dir.y as int, b.min.y as int, b.max.y as int),
        r.orig.z as int, r.dir.z as int, b.min.z as int, b.max.z as int)
}

/// The final upper bound of the slab interval, starting from `base`.
pub open spec fn box_exit(b: AABB, r: Ray, base: Rat) -> Rat {
    step_exit(
        step_exit(
            step_exit(base, r.orig.x as int, r.dir.x as int, b.min.x as int, b.max.x as int),
            r.orig.y as int, r.dir.y as int, b.min.y as int, b.max.y as int),
        r.orig.z as int, r.dir.z as int, b.min.z as int, b.max.z as int)
}

/// The sign of the face the ray leaves through on an axis it travels along:
/// a positive component exits through the `max` face.
pub open spec fn exit_dir(d: int) -> i8 {
    if d > 0 {
        1i8
    } else {
        -1i8
    }
}

/// One axis of the exit-face fold: the running upper bound together with the
/// face that set it.  The face changes only when this axis strictly tightens
/// the running bound, so on a tie the earlier axis keeps the face.
pub open spec fn step_exit_face(cur: (Rat, Exit), o: int, d: int, mn: int, mx: int,
    axis: u32) -> (Rat, Exit) {
    if d != 0 && rlt(axis_exit(o, d, mn, mx), cur.0) {
        (axis_exit(o, d, mn, mx), Exit { axis, direction: exit_dir(d) })
    } else {
        cur
    }
}

/// The face through which the ray leaves the box: the last axis whose upper
/// slab bound strictly tightened the running interval, with the sign of the
/// ray's component on that axis.  When no axis tightened `base`, the face is
/// the neutral one.
pub open spec fn box_exit_face(b: AABB, r: Ray, base: Rat) -> Exit {
    let s0 = (base, Exit { axis: 0, direction: 0 });
    let s1 = step_exit_face(s0, r.orig.x as int, r.dir.x as int, b.min.x as int, b.max.x as int, 0);
    let s2 = step_exit_face(s1, r.orig.y as int, r.dir.y as int, b.min.y as int, b.max.y as int, 1);
    let s3 = step_exit_face(s2, r.orig.z as int, r.dir.z as int, b.min.z as int, b.max.z as int, 2);
    s3.1
}

/// On every axis the ray is parallel to, its origin lies within the slab.
pub open spec fn par_ok(b: AABB, r: Ray) -> bool {
    &&& (r.dir.x == 0 ==> b.min.x <= r.orig.x <= b.max.x)
    &&& (r.dir.y == 0 ==> b.min.y <= r.orig.y <= b.max.y)
    &&& (r.dir.z == 0 ==> b.min.z <= r.orig.z <= b.max.z)
}

/// The whole outcome of the slab test: hit iff no parallel miss and the
/// clipped interval is nonempty.  A zero-width interval is a tangent
/// contact and still counts as a hit, so a flat box can be met.
pub open spec fn slab_hits(b: AABB, r: Ray, lo: Rat, hi: Rat) -> bool {
    par_ok(b, r) && rle(box_enter(b, r, lo), box_exit(b, r, hi))
}

/// A well-formed axis bound: numerator within twice the world bound and a
/// positive denominator at most the direction bound.
proof fn lemma_axis_bounds_wf(o: int, d: int, mn: int, mx: int)
    requires
        d != 0,
        -COORD_BOUND <= o <= COORD_BOUND,
        -COORD_BOUND <= d <= COORD_BOUND,
        -COORD_BOUND <= mn <= COORD_BOUND,
        -COORD_BOUND <= mx <= COORD_BOUND,
    ensures
        rat_wf(axis_enter(o, d, mn, mx)),
        rat_wf(axis_exit(o, d, mn, mx)),
{
}

/// On one axis: a parameter whose coordinate lies within the slab lies
/// between the axis entry and exit bounds.
proof fn lemma_axis_complete(o: int, d: int, mn: int, mx: int, t: Rat)
    requires
        t.den > 0,
        -COORD_BOUND <= o <= COORD_BOUND,
        -COORD_BOUND <= d <= COORD_BOUND,
        -COORD_BOUND <= mn <= COORD_BOUND,
        -COORD_BOUND <= mx <= COORD_BOUND,
        at_in_range(o, d, t, mn, mx),
    ensures
        d != 0 ==> rle(axis_enter(o, d, mn, mx), t),
        d != 0 ==> rle(t, axis_exit(o, d, mn, mx)),
        d == 0 ==> mn <= o <= mx,
{
    if d > 0 {
        assert((mn - o) * t.den <= t.num * d) by (nonlinear_arith)
            requires
                mn * t.den <= o * t.den + t.num * d,
        ;
        assert(t.num * d <= (mx - o) * t.den) by (nonlinear_arith)
            requires
                o * t.den + t.num * d <= mx * t.den,
        ;
    } else if d < 0 {
        assert((o - mx) * t.den <= t.num * (-d)) by (nonlinear_arith)
            requires
                o * t.den + t.num * d <= mx * t.den,
        ;
        assert(t.num * (-d) <= (o - mn) * t.den) by (nonlinear_arith)
            requires
                mn * t.den <= o * t.den + t.num * d,
        ;
    } else {
        assert(mn <= o <= mx) by (nonlinear_arith)
            requires
                t.den > 0,
                mn * t.den <= o * t.den + t.num * 0,
                o * t.den + t.num * 0 <= mx * t.den,
        ;
    }
}

/// The larger of two rationals is at or above both.
proof fn lemma_rmax_ge(a: Rat, b: Rat)
    requires
        a.den > 0,
        b.den > 0,
    ensures
        rle(a, rmax(a, b)),
        rle(b, rmax(a, b)),
{
}

/// The smaller of two rationals is at or below both.
proof fn lemma_rmin_le(a: Rat, b: Rat)
    requires
        a.den > 0,
        b.den > 0,
    ensures
        rle(rmin(a, b), a),
        rle(rmin(a, b), b),
{
}

/// The clipped lower bound lies at or above the base and at or above every
/// axis entry the ray actually crosses; its denominator stays positive.
pub proof fn lemma_box_enter_bounds(b: AABB, r: Ray, base: Rat)
    requires
        ray_wf(r),
        base.den > 0,
    ensures
        box_enter(b, r, base).den > 0,
        rle(base, box_enter(b, r, base)),
        r.dir.x != 0 ==> rle(axis_enter(r.orig.x as int, r.dir.x as int, b.min.x as int,
            b.max.x as int), box_enter(b, r, base)),
        r.dir.y != 0 ==> rle(axis_enter(r.orig.y as int, r.dir.y as int, b.min.y as int,
            b.max.y as int), box_enter(b, r, base)),
        r.dir.z != 0 ==> rle(axis_enter(r.orig.z as int, r.dir.z as int, b.min.z as int,
            b.max.z as int), box_enter(b, r, base)),
{
    let e1 = step_enter(base, r.orig.x as int, r.dir.x as int, b.min.x as int, b.max.x as int);
    let e2 = step_enter(e1, r.orig.y as int, r.dir.y as int, b.min.y as int, b.max.y as int);
    let e3 = step_enter(e2, r.orig.z as int, r.dir.z as int, b.min.z as int, b.max.z as int);
    if r.dir.x != 0 {
        lemma_rmax_ge(base, axis_enter(r.orig.x as int, r.dir.x as int, b.min.x as int,
            b.max.x as int));
    }
    if r.dir.y != 0 {
        lemma_rmax_ge(e1, axis_enter(r.orig.y as int, r.dir.y as int, b.min.y as int,
            b.max.y as int));
    }
    if r.dir.z != 0 {
        lemma_rmax_ge(e2, axis_enter(r.orig.z as int, r.dir.z as int, b.min.z as int,
            b.max.z as int));
    }
    crate::rat::lemma_rle_trans(base, e1, e2);
    crate::rat::lemma_rle_trans(base, e2, e3);
    if r.dir.x != 0 {
        let ax = axis_enter(r.orig.x as int, r.dir.x as int, b.min.x as int, b.max.x as int);
        crate::rat::lemma_rle_trans(ax, e1, e2);
        crate::rat::lemma_rle_trans(ax, e2, e3);
    }
    if r.dir.y != 0 {
        let ay = axis_enter(r.orig.y as int, r.dir.y as int, b.min.y as int, b.max.y as int);
        crate::rat::lemma_rle_trans(ay, e2, e3);
    }
}

/// The clipped upper bound lies at or below the base and at or below every
/// axis exit the ray actually crosses; its denominator stays positive.
pub proof fn lemma_box_exit_bounds(b: AABB, r: Ray, base: Rat)
    requires
        ray_wf(r),
        base.den > 0,
    ensures
        box_exit(b, r, base).den > 0,
        rle(box_exit(b, r, base), base),
        r.dir.x != 0 ==> rle(box_exit(b, r, base), axis_exit(r.orig.x as int, r.dir.x as int,
            b.min.x as int, b.max.x as int)),
        r.dir.y != 0 ==> rle(box_exit(b, r, base), axis_exit(r.orig.y as int, r.dir.y as int,
            b.min.y as int, b.max.y as int)),
        r.dir.z != 0 ==> rle(box_exit(b, r, base), axis_exit(r.orig.z as int, r.dir.z as int,
            b.min.z as int, b.max.z as int)),
{
    let x1 = step_exit(base, r.orig.x as int, r.dir.x as int, b.min.x as int, b.max.x as int);
    let x2 = step_exit(x1, r.orig.y as int, r.dir.y as int, b.min.y as int, b.max.y as int);
    let x3 = step_exit(x2, r.orig.z as int, r.dir.z as int, b.min.z as int, b.max.z as int);
    if r.dir.x != 0 {
        lemma_rmin_le(base, axis_exit(r.orig.x as int, r.dir.x as int, b.min.x as int,
            b.max.x as int));
    }
    if r.dir.y != 0 {
        lemma_rmin_le(x1, axis_exit(r.orig.y as int, r.dir.y as int, b.min.y as int,
            b.max.y as int));
    }
    if r.dir.z != 0 {
        lemma_rmin_le(x2, axis_exit(r.orig.z as int, r.dir.z as int, b.min.z as int,
            b.max.z as int));
    }
    crate::rat::lemma_rle_trans(x2, x1, base);
    crate::rat::lemma_rle_trans(x3, x2, base);
    if r.dir.x != 0 {
        let ax = axis_exit(r.orig.x as int, r.dir.x as int, b.min.x as int, b.max.x as int);
        crate::rat::lemma_rle_trans(x2, x1, ax);
        crate::rat::lemma_rle_trans(x3, x2, ax);
    }
    if r.dir.y != 0 {
        let ay = axis_exit(r.orig.y as int, r.dir.y as int, b.min.y as int, b.max.y as int);
        crate::rat::lemma_rle_trans(x3, x2, ay);
    }
}

/// At the clipped entry parameter the ray's point lies inside the box, axis
/// by axis.
pub proof fn lemma_enter_point_in_box(b: AABB, r: Ray, lo: Rat, hi: Rat)
    requires
        aabb_wf(b),
        ray_wf(r),
        lo.den > 0,
        hi.den > 0,
        slab_hits(b, r, lo, hi),
    ensures
        box_enter(b, r, lo).den > 0,
        at_in_range(r.orig.x as int, r.dir.x as int, box_enter(b, r, lo),
            b.min.x as int, b.max.x as int),
        at_in_range(r.orig.y as int, r.dir.y as int, box_enter(b, r, lo),
            b.min.y as int, b.max.y as int),
        at_in_range(r.orig.z as int, r.dir.z as int, box_enter(b, r, lo),
            b.min.z as int, b.max.z as int),
{
    let en = box_enter(b, r, lo);
    let ex = box_exit(b, r, hi);
    lemma_box_enter_bounds(b, r, lo);
    lemma_box_exit_bounds(b, r, hi);
    lemma_axis_enter_point(r.orig.x as int, r.dir.x as int, b.min.x as int, b.max.x as int,
        en, ex);
    lemma_axis_enter_point(r.orig.y as int, r.dir.y as int, b.min.y as int, b.max.y as int,
        en, ex);
    lemma_axis_enter_point(r.orig.z as int, r.dir.z as int, b.min.z as int, b.max.z as int,
        en, ex);
}

/// One axis of the entry-point fact: between its entry and exit bounds the
/// coordinate lies in the slab; a parallel axis holds its origin there.
proof fn lemma_axis_enter_point(o: int, d: int, mn: int, mx: int, en: Rat, ex: Rat)
    requires
        -COORD_BOUND <= o <= COORD_BOUND,
        -COORD_BOUND <= d <= COORD_BOUND,
        -COORD_BOUND <= mn <= COORD_BOUND,
        -COORD_BOUND <= mx <= COORD_BOUND,
        en.den > 0,
        ex.den > 0,
        rle(en, ex),
        d != 0 ==> rle(axis_enter(o, d, mn, mx), en),
        d != 0 ==> rle(ex, axis_exit(o, d, mn, mx)),
        d == 0 ==> mn <= o <= mx,
    ensures
        at_in_range(o, d, en, mn, mx),
{
    if d > 0 {
        crate::rat::lemma_rle_trans(en, ex, axis_exit(o, d, mn, mx));
        assert(at_in_range(o, d, en, mn, mx)) by (nonlinear_arith)
            requires
                en.den > 0,
                d > 0,
                (mn - o) * en.den <= en.num * d,
                en.num * d <= (mx - o) * en.den,
        ;
    } else if d < 0 {
        crate::rat::lemma_rle_trans(en, ex, axis_exit(o, d, mn, mx));
        assert(at_in_range(o, d, en, mn, mx)) by (nonlinear_arith)
            requires
                en.den > 0,
                d < 0,
                (o - mx) * en.den <= en.num * (-d),
                en.num * (-d) <= (o - mn) * en.den,
        ;
    } else {
        assert(at_in_range(o, d, en, mn, mx)) by (nonlinear_arith)
            requires
                en.den > 0,
                d == 0,
                mn <= o <= mx,
        ;
    }
}

/// Completeness of the slab test: if the ray's point at `t` lies in the box
/// and `t` lies in the query interval, then every parallel axis passes and
/// `t` lies between the clipped bounds.
pub proof fn lemma_slab_complete(b: AABB, r: Ray, lo: Rat, hi: Rat, t: Rat)
    requires
        aabb_wf(b),
        ray_wf(r),
        lo.den > 0,
        hi.den > 0,
        t.den > 0,
        rle(lo, t),
        rle(t, hi),
        at_in_range(r.orig.x as int, r.dir.x as int, t, b.min.x as int, b.max.x as int),
        at_in_range(r.orig.y as int, r.dir.y as int, t, b.min.y as int, b.max.y as int),
        at_in_range(r.orig.z as int, r.dir.z as int, t, b.min.z as int, b.max.z as int),
    ensures
        par_ok(b, r),
        rle(box_enter(b, r, lo), t),
        rle(t, box_exit(b, r, hi)),
{
    lemma_axis_complete(r.orig.x as int, r.dir.x as int, b.min.x as int, b.max.x as int, t);
    lemma_axis_complete(r.orig.y as int, r.dir.y as int, b.min.y as int, b.max.y as int, t);
    lemma_axis_complete(r.orig.z as int, r.dir.z as int, b.min.z as int, b.max.z as int, t);
}

impl AABB {
    /// The parametric sub-interval of `[ray_t_min, ray_t_max]` during which
    /// the ray lies inside the box, with the face it exits through, or
    /// `None` when the clipped interval is empty.
    pub fn hit(&self, ray: &Ray, ray_t_min: Rat, ray_t_max: Rat) -> (res: Option<(Rat, Rat, Exit)>)
        requires
            aabb_wf(*self),
            ray_wf(*ray),
            rat_wf(ray_t_min),
            rat_wf(ray_t_max),
        ensures
            res.is_some() == slab_hits(*self, *ray, ray_t_min, ray_t_max),
            res matches Some(t) ==> {
                &&& t.0 == box_enter(*self, *ray, ray_t_min)
                &&& t.1 == box_exit(*self, *ray, ray_t_max)
                &&& rat_wf(t.0)
                &&& rat_wf(t.1)
                &&& rle(t.0, t.1)
                &&& t.2 == box_exit_face(*self, *ray, ray_t_max)
                &&& t.2.axis < 3
            },
    {
        let mut lo_t = ray_t_min;
        let mut hi_t = ray_t_max;
        let mut exit = Exit { axis: 0, direction: 0 };

        if ray.dir.x == 0 {
            if ray.orig.x < self.min.x || ray.orig.x > self.max.x {
                return None;
            }
        } else {
            let (en, ex, dirn): (Rat, Rat, i8) = if ray.dir.x > 0 {
                (Rat::new(self.min.x - ray.orig.x, ray.dir.x),
                 Rat::new(self.max.x - ray.orig.x, ray.dir.x), 1)
            } else {
                (Rat::new(ray.orig.x - self.max.x, -ray.dir.x),
                 Rat::new(ray.orig.x - self.min.x, -ray.dir.x), -1)
            };
            if lo_t.lt(&en) {
                lo_t = en;
            }
            if ex.lt(&hi_t) {
                hi_t = ex;
                exit.set(0, dirn);
            }
        }

        if ray.dir.y == 0 {
            if ray.orig.y < self.min.y || ray.orig.y > self.max.y {
                return None;
            }
        } else {
            let (en, ex, dirn): (Rat, Rat, i8) = if ray.dir.y > 0 {
                (Rat::new(self.min.y - ray.orig.y, ray.dir.y),
                 Rat::new(self.max.y - ray.orig.y, ray.dir.y), 1)
            } else {
                (Rat::new(ray.orig.y - self.max.y, -ray.dir.y),
                 Rat::new(ray.orig.y - self.min.y, -ray.dir.y), -1)
            };
            if lo_t.lt(&en) {
                lo_t = en;
            }
            if ex.lt(&hi_t) {
                hi_t = ex;
                exit.set(1, dirn);
            }
        }

        if ray.dir.z == 0 {
            if ray.orig.z < self.min.z || ray.orig.z > self.max.z {
                return None;
            }
        } else {
            let (en, ex, dirn): (Rat, Rat, i8) = if ray.dir.z > 0 {
                (Rat::new(self.min.z - ray.orig.z, ray.dir.z),
                 Rat::new(self.max.z - ray.orig.z, ray.dir.z), 1)
            } else {
                (Rat::new(ray.orig.z - self.max.z, -ray.dir.z),
                 Rat::new(ray.orig.z - self.min.z, -ray.dir.z), -1)
            };
            if lo_t.lt(&en) {
                lo_t = en;
            }
            if ex.lt(&hi_t) {
                hi_t = ex;
                exit.set(2, dirn);
            }
        }

        if hi_t.lt(&lo_t) {
            None
        } else {
            Some((lo_t, hi_t, exit))
        }
    }

    /// The parameters at which the ray enters and leaves the box, or `None`
    /// when it misses.  Here a zero-width interval — the ray grazing the box
    /// without spending any parameter span inside it — counts as a miss.
    pub fn enter_and_exit(&self, ray: &Ray, ray_t_min: Rat, ray_t_max: Rat) -> (res: Option<(Rat, Rat)>)
        requires
            aabb_wf(*self),
            ray_wf(*ray),
            rat_wf(ray_t_min),
            rat_wf(ray_t_max),
        ensures
            res.is_some() == (par_ok(*self, *ray)
                && rlt(box_enter(*self, *ray, ray_t_min), box_exit(*self, *ray, ray_t_max))),
            res matches Some(t) ==> {
                &&& t.0 == box_enter(*self, *ray, ray_t_min)
                &&& t.1 == box_exit(*self, *ray, ray_t_max)
                &&& rat_wf(t.0)
                &&& rat_wf(t.1)
                &&& rlt(t.0, t.1)
            },
    {
        match self.hit(ray, ray_t_min, ray_t_max) {
            Some((en, ex, _)) => {
                if en.lt(&ex) {
                    Some((en, ex))
                } else {
                    None
                }
            },
            None => None,
        }
    }
}

} // verus!
