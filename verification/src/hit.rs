//! Primitives (spheres and triangles) and their exact hit tests.  A hit
//! test returns the ray parameter as an exact rational; for the sphere the
//! square root is taken at a fixed scale, so the reported parameter is a
//! deterministic fixed-point approximation of the true root and every
//! comparison against it is exact.

use vstd::prelude::*;
use crate::aabb::{AABB, aabb_wf, contains_rat};
use crate::num::{isq, isqrt, lemma_mul_bound};
use crate::rat::{Rat, rat_wf, rle, rlt, NUM_BOUND, DEN_BOUND};
use crate::ray::{Ray, ray_wf, at_num, at_in_range};
use crate::unit::{unit_of, unit_scaled, unit_dir, lemma_unit_of_unit, lemma_unit_neg};
use crate::vec3i::{Vec3i, v3_bounded, sdot, COORD_BOUND};

verus! {

/// What a successful hit reports: the point reached, the outward normal at
/// the unit scale (flipped to face the ray), the material handle, the ray
/// parameter, which side was struck, and the box-edge flag used by the
/// box-drawing debug view.
#[derive(Clone, Copy, Debug)]
pub struct HitRecord {
    pub px: Rat,
    pub py: Rat,
    pub pz: Rat,
    pub normal: Vec3i,
    pub mat: usize,
    pub t: Rat,
    pub front_face: bool,
    pub hits_aabb_edge: bool,
}

/// A scene primitive.  Materials live in a separate table and are addressed
/// by index.
#[derive(Clone, Copy, Debug)]
pub enum Primitive {
    Sphere { center: Vec3i, radius: i128, mat: usize },
    Triangle { v0: Vec3i, v1: Vec3i, v2: Vec3i, mat: usize },
}

/// Well-formed primitive: coordinates inside the world bound, and a sphere
/// stays inside it even after adding the radius.
pub open spec fn prim_wf(p: Primitive) -> bool {
    match p {
        Primitive::Sphere { center, radius, mat } => {
            &&& 0 <= radius
            &&& -COORD_BOUND <= center.x - radius && center.x + radius <= COORD_BOUND
            &&& -COORD_BOUND <= center.y - radius && center.y + radius <= COORD_BOUND
            &&& -COORD_BOUND <= center.z - radius && center.z + radius <= COORD_BOUND
        },
        Primitive::Triangle { v0, v1, v2, mat } => {
            &&& v3_bounded(v0, COORD_BOUND as int)
            &&& v3_bounded(v1, COORD_BOUND as int)
            &&& v3_bounded(v2, COORD_BOUND as int)
        },
    }
}

/// The bounding box of a primitive: a sphere's is its center pushed out by
/// the radius on every axis, a triangle's the componentwise extremes of its
/// vertices.
pub open spec fn prim_aabb(p: Primitive) -> AABB {
    match p {
        Primitive::Sphere { center, radius, mat } => AABB {
            min: Vec3i {
                x: (center.x - radius) as i128,
                y: (center.y - radius) as i128,
                z: (center.z - radius) as i128,
            },
            max: Vec3i {
                x: (center.x + radius) as i128,
                y: (center.y + radius) as i128,
                z: (center.z + radius) as i128,
            },
        },
        Primitive::Triangle { v0, v1, v2, mat } => AABB {
            min: Vec3i {
                x: crate::aabb::imin(crate::aabb::imin(v0.x as int, v1.x as int), v2.x as int) as i128,
                y: crate::aabb::imin(crate::aabb::imin(v0.y as int, v1.y as int), v2.y as int) as i128,
                z: crate::aabb::imin(crate::aabb::imin(v0.z as int, v1.z as int), v2.z as int) as i128,
            },
            max: Vec3i {
                x: crate::aabb::imax(crate::aabb::imax(v0.x as int, v1.x as int), v2.x as int) as i128,
                y: crate::aabb::imax(crate::aabb::imax(v0.y as int, v1.y as int), v2.y as int) as i128,
                z: crate::aabb::imax(crate::aabb::imax(v0.z as int, v1.z as int), v2.z as int) as i128,
            },
        },
    }
}

/// The material handle of a primitive.
pub open spec fn prim_mat(p: Primitive) -> usize {
    match p {
        Primitive::Sphere { center, radius, mat } => mat,
        Primitive::Triangle { v0, v1, v2, mat } => mat,
    }
}

/// One coordinate of the point at parameter `t`, as a rational with the
/// same denominator as `t`.
pub open spec fn at_rat(o: int, d: int, t: Rat) -> Rat {
    Rat { num: (o * t.den + t.num * d) as i128, den: t.den }
}

/// A parameter is accepted when it lies strictly inside the query interval
/// and the point it reaches lies in the box `bb`.
pub open spec fn accept_t(bb: AABB, r: Ray, lo: Rat, hi: Rat, t: Rat) -> bool {
    &&& rlt(lo, t)
    &&& rlt(t, hi)
    &&& contains_rat(
        bb,
        at_rat(r.orig.x as int, r.dir.x as int, t),
        at_rat(r.orig.y as int, r.dir.y as int, t),
        at_rat(r.orig.z as int, r.dir.z as int, t),
    )
}

/// The scale at which the sphere discriminant's square root is taken.
pub open spec fn sqrt_scale() -> int {
    COORD_BOUND as int
}

/// The parameter at which a ray first meets a sphere within `(lo, hi)`:
/// the two candidate roots of the quadratic, smaller first, each accepted
/// only inside the interval and inside the sphere's box.
pub open spec fn sphere_hit_t(center: Vec3i, radius: i128, r: Ray, lo: Rat, hi: Rat) -> Option<Rat> {
    let bb = prim_aabb(Primitive::Sphere { center, radius, mat: 0 });
    let a = sdot(r.dir, r.dir);
    let ocx = center.x - r.orig.x;
    let ocy = center.y - r.orig.y;
    let ocz = center.z - r.orig.z;
    let h = r.dir.x * ocx + r.dir.y * ocy + r.dir.z * ocz;
    let c2 = ocx * ocx + ocy * ocy + ocz * ocz - radius * radius;
    let disc = h * h - a * c2;
    if disc < 0 {
        None
    } else {
        let sq = isq((disc * (sqrt_scale() * sqrt_scale())) as nat) as int;
        let den = a * sqrt_scale();
        let r1 = Rat { num: (h * sqrt_scale() - sq) as i128, den: den as i128 };
        let r2 = Rat { num: (h * sqrt_scale() + sq) as i128, den: den as i128 };
        if accept_t(bb, r, lo, hi, r1) {
            Some(r1)
        } else if accept_t(bb, r, lo, hi, r2) {
            Some(r2)
        } else {
            None
        }
    }
}

/// The parameter at which a ray meets a triangle within `(lo, hi)`: the
/// plane intersection, accepted only when it passes the three edge tests,
/// lies inside the interval and inside the triangle's box.  A ray parallel
/// to the plane misses.
pub open spec fn tri_hit_t(v0: Vec3i, v1: Vec3i, v2: Vec3i, r: Ray, lo: Rat, hi: Rat) -> Option<Rat> {
    let bb = prim_aabb(Primitive::Triangle { v0, v1, v2, mat: 0 });
    let nx = (v1.y - v0.y) * (v2.z - v0.z) - (v1.z - v0.z) * (v2.y - v0.y);
    let ny = (v1.z - v0.z) * (v2.x - v0.x) - (v1.x - v0.x) * (v2.z - v0.z);
    let nz = (v1.x - v0.x) * (v2.y - v0.y) - (v1.y - v0.y) * (v2.x - v0.x);
    let nd = nx * r.dir.x + ny * r.dir.y + nz * r.dir.z;
    if nd == 0 {
        None
    } else {
        let tn0 = nx * (v0.x - r.orig.x) + ny * (v0.y - r.orig.y) + nz * (v0.z - r.orig.z);
        let t = if nd > 0 {
            Rat { num: tn0 as i128, den: nd as i128 }
        } else {
            Rat { num: (-tn0) as i128, den: (-nd) as i128 }
        };
        if tri_edges_ok(v0, v1, v2, r, t) && accept_t(bb, r, lo, hi, t) {
            Some(t)
        } else {
            None
        }
    }
}

/// One edge test: the point at `t` lies on the inner side of the edge
/// `v -> w`, measured against the face normal.
pub open spec fn edge_ok(nx: int, ny: int, nz: int, vx: int, vy: int, vz: int,
    wx: int, wy: int, wz: int, r: Ray, t: Rat) -> bool {
    let ex = wx - vx;
    let ey = wy - vy;
    let ez = wz - vz;
    let ux = r.orig.x - vx;
    let uy = r.orig.y - vy;
    let uz = r.orig.z - vz;
    let cax = ey * uz - ez * uy;
    let cay = ez * ux - ex * uz;
    let caz = ex * uy - ey * ux;
    let a0 = nx * cax + ny * cay + nz * caz;
    let cbx = ey * r.dir.z - ez * r.dir.y;
    let cby = ez * r.dir.x - ex * r.dir.z;
    let cbz = ex * r.dir.y - ey * r.dir.x;
    let b0 = nx * cbx + ny * cby + nz * cbz;
    a0 * t.den + t.num * b0 > 0
}

/// All three edge tests of the triangle, with consistent winding.
pub open spec fn tri_edges_ok(v0: Vec3i, v1: Vec3i, v2: Vec3i, r: Ray, t: Rat) -> bool {
    let nx = (v1.y - v0.y) * (v2.z - v0.z) - (v1.z - v0.z) * (v2.y - v0.y);
    let ny = (v1.z - v0.z) * (v2.x - v0.x) - (v1.x - v0.x) * (v2.z - v0.z);
    let nz = (v1.x - v0.x) * (v2.y - v0.y) - (v1.y - v0.y) * (v2.x - v0.x);
    &&& edge_ok(nx, ny, nz, v0.x as int, v0.y as int, v0.z as int,
            v1.x as int, v1.y as int, v1.z as int, r, t)
    &&& edge_ok(nx, ny, nz, v1.x as int, v1.y as int, v1.z as int,
            v2.x as int, v2.y as int, v2.z as int, r, t)
    &&& edge_ok(nx, ny, nz, v2.x as int, v2.y as int, v2.z as int,
            v0.x as int, v0.y as int, v0.z as int, r, t)
}

/// The hit parameter of a primitive, whichever kind it is.
pub open spec fn prim_hit_t(p: Primitive, r: Ray, lo: Rat, hi: Rat) -> Option<Rat> {
    match p {
        Primitive::Sphere { center, radius, mat } => sphere_hit_t(center, radius, r, lo, hi),
        Primitive::Triangle { v0, v1, v2, mat } => tri_hit_t(v0, v1, v2, r, lo, hi),
    }
}

/// The outward normal direction of a primitive at the point reached at `t`,
/// before flipping: for a sphere the offset from the center (scaled by the
/// positive denominator of `t`), for a triangle the face normal.
pub open spec fn prim_outward(p: Primitive, r: Ray, t: Rat) -> Vec3i {
    match p {
        Primitive::Sphere { center, radius, mat } => Vec3i {
            x: (at_num(r.orig.x as int, r.dir.x as int, t) - center.x * t.den) as i128,
            y: (at_num(r.orig.y as int, r.dir.y as int, t) - center.y * t.den) as i128,
            z: (at_num(r.orig.z as int, r.dir.z as int, t) - center.z * t.den) as i128,
        },
        Primitive::Triangle { v0, v1, v2, mat } => Vec3i {
            x: ((v1.y - v0.y) * (v2.z - v0.z) - (v1.z - v0.z) * (v2.y - v0.y)) as i128,
            y: ((v1.z - v0.z) * (v2.x - v0.x) - (v1.x - v0.x) * (v2.z - v0.z)) as i128,
            z: ((v1.x - v0.x) * (v2.y - v0.y) - (v1.y - v0.y) * (v2.x - v0.x)) as i128,
        },
    }
}

/// The record a hit at parameter `t` fills in: point, the quantized unit
/// normal flipped to face the ray, side flag and material handle.
pub open spec fn prim_hit_rec(p: Primitive, r: Ray, t: Rat) -> HitRecord {
    let outward = prim_outward(p, r, t);
    let un = unit_of(outward);
    let dn = sdot(r.dir, outward);
    let front = dn < 0;
    HitRecord {
        px: at_rat(r.orig.x as int, r.dir.x as int, t),
        py: at_rat(r.orig.y as int, r.dir.y as int, t),
        pz: at_rat(r.orig.z as int, r.dir.z as int, t),
        normal: if front {
            un
        } else {
            Vec3i { x: (-un.x) as i128, y: (-un.y) as i128, z: (-un.z) as i128 }
        },
        mat: prim_mat(p),
        t: t,
        front_face: front,
        hits_aabb_edge: false,
    }
}

/// A well-formed primitive has a well-formed bounding box.
pub proof fn lemma_prim_aabb_wf(p: Primitive)
    requires
        prim_wf(p),
    ensures
        aabb_wf(prim_aabb(p)),
{
}

/// Every record the primitives produce stores a unit-band normal.
pub proof fn lemma_hit_rec_normal_unit(p: Primitive, r: Ray, t: Rat)
    ensures
        unit_dir(prim_hit_rec(p, r, t).normal),
{
    let outward = prim_outward(p, r, t);
    lemma_unit_of_unit(outward);
    if !(sdot(r.dir, outward) < 0) {
        lemma_unit_neg(unit_of(outward));
    }
}

/// The full outcome of testing a primitive.
pub open spec fn prim_hit(p: Primitive, r: Ray, lo: Rat, hi: Rat) -> Option<HitRecord> {
    match prim_hit_t(p, r, lo, hi) {
        Some(t) => Some(prim_hit_rec(p, r, t)),
        None => None,
    }
}

/// The two sphere roots are ordered: the root with the subtracted square
/// root never lies beyond the other.
proof fn lemma_roots_ordered(n1: i128, n2: i128, d: i128)
    requires
        n1 <= n2,
        d > 0,
    ensures
        rle(Rat { num: n1, den: d }, Rat { num: n2, den: d }),
{
    assert(n1 * d <= n2 * d) by (nonlinear_arith)
        requires
            n1 <= n2,
            d > 0,
    ;
}

/// What holds of every reported hit parameter: it is tightly bounded, lies
/// strictly inside the query interval, and the point it reaches lies inside
/// the primitive's bounding box, axis by axis.
pub proof fn lemma_prim_hit_t_props(p: Primitive, r: Ray, lo: Rat, hi: Rat)
    requires
        prim_wf(p),
        ray_wf(r),
        lo.den > 0,
        hi.den > 0,
    ensures
        prim_hit_t(p, r, lo, hi) matches Some(t) ==> {
            &&& t_tight(t)
            &&& rlt(lo, t)
            &&& rlt(t, hi)
            &&& at_in_range(r.orig.x as int, r.dir.x as int, t,
                    prim_aabb(p).min.x as int, prim_aabb(p).max.x as int)
            &&& at_in_range(r.orig.y as int, r.dir.y as int, t,
                    prim_aabb(p).min.y as int, prim_aabb(p).max.y as int)
            &&& at_in_range(r.orig.z as int, r.dir.z as int, t,
                    prim_aabb(p).min.z as int, prim_aabb(p).max.z as int)
        },
{
    if prim_hit_t(p, r, lo, hi) is Some {
        let t = prim_hit_t(p, r, lo, hi)->Some_0;
        lemma_prim_t_tight(p, r, lo, hi);
        assert(t_tight(t));
        let bb = prim_aabb(p);
        assert(accept_t(bb, r, lo, hi, t)) by {
            match p {
                Primitive::Sphere { center, radius, mat } => {
                    assert(prim_aabb(p) == prim_aabb(Primitive::Sphere { center, radius, mat: 0 }));
                },
                Primitive::Triangle { v0, v1, v2, mat } => {
                    assert(prim_aabb(p) == prim_aabb(Primitive::Triangle { v0, v1, v2, mat: 0 }));
                },
            }
        }
        lemma_mul_bound(r.orig.x as int, t.den as int, COORD_BOUND as int, T_BOUND as int);
        lemma_mul_bound(r.orig.y as int, t.den as int, COORD_BOUND as int, T_BOUND as int);
        lemma_mul_bound(r.orig.z as int, t.den as int, COORD_BOUND as int, T_BOUND as int);
        lemma_mul_bound(t.num as int, r.dir.x as int, T_BOUND as int, COORD_BOUND as int);
        lemma_mul_bound(t.num as int, r.dir.y as int, T_BOUND as int, COORD_BOUND as int);
        lemma_mul_bound(t.num as int, r.dir.z as int, T_BOUND as int, COORD_BOUND as int);
    }
}

/// Every reported hit parameter is tightly bounded.
proof fn lemma_prim_t_tight(p: Primitive, r: Ray, lo: Rat, hi: Rat)
    requires
        prim_wf(p),
        ray_wf(r),
    ensures
        prim_hit_t(p, r, lo, hi) matches Some(t) ==> t_tight(t),
{
    match p {
        Primitive::Sphere { center, radius, mat } => {
            let a = sdot(r.dir, r.dir);
            let ocx = center.x - r.orig.x;
            let ocy = center.y - r.orig.y;
            let ocz = center.z - r.orig.z;
            let h = r.dir.x * ocx + r.dir.y * ocy + r.dir.z * ocz;
            let c2 = ocx * ocx + ocy * ocy + ocz * ocz - radius * radius;
            let disc = h * h - a * c2;
            if disc >= 0 {
                lemma_dir_sq_pos(r.dir);
                lemma_sphere_mags(center, radius, r);
                let dkk = disc * (sqrt_scale() * sqrt_scale());
                assert(0 <= dkk <= 75 * COORD_BOUND * COORD_BOUND * COORD_BOUND * COORD_BOUND
                    * COORD_BOUND * COORD_BOUND) by (nonlinear_arith)
                    requires
                        0 <= disc <= 75 * COORD_BOUND * COORD_BOUND * COORD_BOUND * COORD_BOUND,
                        dkk == disc * (sqrt_scale() * sqrt_scale()),
                        sqrt_scale() == COORD_BOUND,
                ;
                let sq = isq(dkk as nat) as int;
                crate::num::lemma_isq_props(dkk as nat);
                assert(sq <= 9 * COORD_BOUND * COORD_BOUND * COORD_BOUND) by (nonlinear_arith)
                    requires
                        sq >= 0,
                        sq * sq <= dkk,
                        dkk <= 75 * COORD_BOUND * COORD_BOUND * COORD_BOUND * COORD_BOUND
                            * COORD_BOUND * COORD_BOUND,
                ;
                let den = a * sqrt_scale();
                assert(0 < den <= 3 * COORD_BOUND * COORD_BOUND * COORD_BOUND) by (nonlinear_arith)
                    requires
                        1 <= a <= 3 * COORD_BOUND * COORD_BOUND,
                        den == a * sqrt_scale(),
                        sqrt_scale() == COORD_BOUND,
                ;
                assert(-7 * COORD_BOUND * COORD_BOUND * COORD_BOUND
                    <= h * sqrt_scale()
                    <= 7 * COORD_BOUND * COORD_BOUND * COORD_BOUND) by (nonlinear_arith)
                    requires
                        -6 * COORD_BOUND * COORD_BOUND <= h <= 6 * COORD_BOUND * COORD_BOUND,
                        sqrt_scale() == COORD_BOUND,
                ;
            }
        },
        Primitive::Triangle { v0, v1, v2, mat } => {
            let nx = (v1.y - v0.y) * (v2.z - v0.z) - (v1.z - v0.z) * (v2.y - v0.y);
            let ny = (v1.z - v0.z) * (v2.x - v0.x) - (v1.x - v0.x) * (v2.z - v0.z);
            let nz = (v1.x - v0.x) * (v2.y - v0.y) - (v1.y - v0.y) * (v2.x - v0.x);
            let nd = nx * r.dir.x + ny * r.dir.y + nz * r.dir.z;
            if nd != 0 {
                let tn0 = nx * (v0.x - r.orig.x) + ny * (v0.y - r.orig.y) + nz * (v0.z - r.orig.z);
                assert({
                    &&& -8 * COORD_BOUND * COORD_BOUND <= nx <= 8 * COORD_BOUND * COORD_BOUND
                    &&& -8 * COORD_BOUND * COORD_BOUND <= ny <= 8 * COORD_BOUND * COORD_BOUND
                    &&& -8 * COORD_BOUND * COORD_BOUND <= nz <= 8 * COORD_BOUND * COORD_BOUND
                }) by (nonlinear_arith)
                    requires
                        v3_bounded(v0, COORD_BOUND as int),
                        v3_bounded(v1, COORD_BOUND as int),
                        v3_bounded(v2, COORD_BOUND as int),
                        nx == (v1.y - v0.y) * (v2.z - v0.z) - (v1.z - v0.z) * (v2.y - v0.y),
                        ny == (v1.z - v0.z) * (v2.x - v0.x) - (v1.x - v0.x) * (v2.z - v0.z),
                        nz == (v1.x - v0.x) * (v2.y - v0.y) - (v1.y - v0.y) * (v2.x - v0.x),
                ;
                assert(-24 * COORD_BOUND * COORD_BOUND * COORD_BOUND <= nd
                    <= 24 * COORD_BOUND * COORD_BOUND * COORD_BOUND) by (nonlinear_arith)
                    requires
                        -8 * COORD_BOUND * COORD_BOUND <= nx <= 8 * COORD_BOUND * COORD_BOUND,
                        -8 * COORD_BOUND * COORD_BOUND <= ny <= 8 * COORD_BOUND * COORD_BOUND,
                        -8 * COORD_BOUND * COORD_BOUND <= nz <= 8 * COORD_BOUND * COORD_BOUND,
                        v3_bounded(r.dir, COORD_BOUND as int),
                        nd == nx * r.dir.x + ny * r.dir.y + nz * r.dir.z,
                ;
                assert(-48 * COORD_BOUND * COORD_BOUND * COORD_BOUND <= tn0
                    <= 48 * COORD_BOUND * COORD_BOUND * COORD_BOUND) by (nonlinear_arith)
                    requires
                        -8 * COORD_BOUND * COORD_BOUND <= nx <= 8 * COORD_BOUND * COORD_BOUND,
                        -8 * COORD_BOUND * COORD_BOUND <= ny <= 8 * COORD_BOUND * COORD_BOUND,
                        -8 * COORD_BOUND * COORD_BOUND <= nz <= 8 * COORD_BOUND * COORD_BOUND,
                        v3_bounded(v0, COORD_BOUND as int),
                        v3_bounded(r.orig, COORD_BOUND as int),
                        tn0 == nx * (v0.x - r.orig.x) + ny * (v0.y - r.orig.y)
                            + nz * (v0.z - r.orig.z),
                ;
            }
        },
    }
}

/// Shrinking the far end of the interval keeps a hit iff the hit parameter
/// still lies inside; it never uncovers a different hit.
pub proof fn lemma_prim_restrict(p: Primitive, r: Ray, lo: Rat, hi: Rat, hi2: Rat)
    requires
        prim_wf(p),
        ray_wf(r),
        lo.den > 0,
        hi.den > 0,
        hi2.den > 0,
        rle(hi2, hi),
    ensures
        prim_hit_t(p, r, lo, hi2) == (match prim_hit_t(p, r, lo, hi) {
            Some(t) => if rlt(t, hi2) { Some(t) } else { None },
            None => None,
        }),
{
    match p {
        Primitive::Sphere { center, radius, mat } => {
            let bb = prim_aabb(Primitive::Sphere { center, radius, mat: 0 });
            let a = sdot(r.dir, r.dir);
            let ocx = center.x - r.orig.x;
            let ocy = center.y - r.orig.y;
            let ocz = center.z - r.orig.z;
            let h = r.dir.x * ocx + r.dir.y * ocy + r.dir.z * ocz;
            let c2 = ocx * ocx + ocy * ocy + ocz * ocz - radius * radius;
            let disc = h * h - a * c2;
            if disc >= 0 {
                lemma_dir_sq_pos(r.dir);
                lemma_sphere_mags(center, radius, r);
                let dkk = disc * (sqrt_scale() * sqrt_scale());
                assert(0 <= dkk <= 75 * COORD_BOUND * COORD_BOUND * COORD_BOUND * COORD_BOUND
                    * COORD_BOUND * COORD_BOUND) by (nonlinear_arith)
                    requires
                        0 <= disc <= 75 * COORD_BOUND * COORD_BOUND * COORD_BOUND * COORD_BOUND,
                        dkk == disc * (sqrt_scale() * sqrt_scale()),
                        sqrt_scale() == COORD_BOUND,
                ;
                let sq = isq(dkk as nat) as int;
                crate::num::lemma_isq_props(dkk as nat);
                assert(0 <= sq && sq * sq <= dkk);
                assert(sq <= 9 * COORD_BOUND * COORD_BOUND * COORD_BOUND) by (nonlinear_arith)
                    requires
                        sq >= 0,
                        sq * sq <= dkk,
                        dkk <= 75 * COORD_BOUND * COORD_BOUND * COORD_BOUND * COORD_BOUND
                            * COORD_BOUND * COORD_BOUND,
                ;
                let den = a * sqrt_scale();
                assert(0 < den <= 3 * COORD_BOUND * COORD_BOUND * COORD_BOUND) by (nonlinear_arith)
                    requires
                        1 <= a <= 3 * COORD_BOUND * COORD_BOUND,
                        den == a * sqrt_scale(),
                        sqrt_scale() == COORD_BOUND,
                ;
                let r1 = Rat { num: (h * sqrt_scale() - sq) as i128, den: den as i128 };
                let r2 = Rat { num: (h * sqrt_scale() + sq) as i128, den: den as i128 };
                assert(-7 * COORD_BOUND * COORD_BOUND * COORD_BOUND
                    <= h * sqrt_scale()
                    <= 7 * COORD_BOUND * COORD_BOUND * COORD_BOUND) by (nonlinear_arith)
                    requires
                        -6 * COORD_BOUND * COORD_BOUND <= h <= 6 * COORD_BOUND * COORD_BOUND,
                        sqrt_scale() == COORD_BOUND,
                ;
                lemma_roots_ordered(r1.num, r2.num, r1.den);
                if accept_t(bb, r, lo, hi, r1) {
                    if rlt(r1, hi2) {
                        assert(accept_t(bb, r, lo, hi2, r1));
                    } else {
                        assert(!accept_t(bb, r, lo, hi2, r1));
                        if rlt(r2, hi2) {
                            crate::rat::lemma_rle_rlt_trans(r1, r2, hi2);
                        }
                        assert(!accept_t(bb, r, lo, hi2, r2));
                    }
                } else {
                    if accept_t(bb, r, lo, hi2, r1) {
                        crate::rat::lemma_rlt_rle_trans(r1, hi2, hi);
                    }
                    assert(!accept_t(bb, r, lo, hi2, r1));
                    if accept_t(bb, r, lo, hi, r2) {
                        if rlt(r2, hi2) {
                            assert(accept_t(bb, r, lo, hi2, r2));
                        } else {
                            assert(!accept_t(bb, r, lo, hi2, r2));
                        }
                    } else {
                        if accept_t(bb, r, lo, hi2, r2) {
                            crate::rat::lemma_rlt_rle_trans(r2, hi2, hi);
                        }
                        assert(!accept_t(bb, r, lo, hi2, r2));
                    }
                }
            }
        },
        Primitive::Triangle { v0, v1, v2, mat } => {
            let bb = prim_aabb(Primitive::Triangle { v0, v1, v2, mat: 0 });
            let nx = (v1.y - v0.y) * (v2.z - v0.z) - (v1.z - v0.z) * (v2.y - v0.y);
            let ny = (v1.z - v0.z) * (v2.x - v0.x) - (v1.x - v0.x) * (v2.z - v0.z);
            let nz = (v1.x - v0.x) * (v2.y - v0.y) - (v1.y - v0.y) * (v2.x - v0.x);
            let nd = nx * r.dir.x + ny * r.dir.y + nz * r.dir.z;
            if nd != 0 {
                let tn0 = nx * (v0.x - r.orig.x) + ny * (v0.y - r.orig.y) + nz * (v0.z - r.orig.z);
                assert({
                    &&& -8 * COORD_BOUND * COORD_BOUND <= nx <= 8 * COORD_BOUND * COORD_BOUND
                    &&& -8 * COORD_BOUND * COORD_BOUND <= ny <= 8 * COORD_BOUND * COORD_BOUND
                    &&& -8 * COORD_BOUND * COORD_BOUND <= nz <= 8 * COORD_BOUND * COORD_BOUND
                }) by (nonlinear_arith)
                    requires
                        v3_bounded(v0, COORD_BOUND as int),
                        v3_bounded(v1, COORD_BOUND as int),
                        v3_bounded(v2, COORD_BOUND as int),
                        nx == (v1.y - v0.y) * (v2.z - v0.z) - (v1.z - v0.z) * (v2.y - v0.y),
                        ny == (v1.z - v0.z) * (v2.x - v0.x) - (v1.x - v0.x) * (v2.z - v0.z),
                        nz == (v1.x - v0.x) * (v2.y - v0.y) - (v1.y - v0.y) * (v2.x - v0.x),
                ;
                assert(-24 * COORD_BOUND * COORD_BOUND * COORD_BOUND <= nd
                    <= 24 * COORD_BOUND * COORD_BOUND * COORD_BOUND) by (nonlinear_arith)
                    requires
                        -8 * COORD_BOUND * COORD_BOUND <= nx <= 8 * COORD_BOUND * COORD_BOUND,
                        -8 * COORD_BOUND * COORD_BOUND <= ny <= 8 * COORD_BOUND * COORD_BOUND,
                        -8 * COORD_BOUND * COORD_BOUND <= nz <= 8 * COORD_BOUND * COORD_BOUND,
                        v3_bounded(r.dir, COORD_BOUND as int),
                        nd == nx * r.dir.x + ny * r.dir.y + nz * r.dir.z,
                ;
                assert(-48 * COORD_BOUND * COORD_BOUND * COORD_BOUND <= tn0
                    <= 48 * COORD_BOUND * COORD_BOUND * COORD_BOUND) by (nonlinear_arith)
                    requires
                        -8 * COORD_BOUND * COORD_BOUND <= nx <= 8 * COORD_BOUND * COORD_BOUND,
                        -8 * COORD_BOUND * COORD_BOUND <= ny <= 8 * COORD_BOUND * COORD_BOUND,
                        -8 * COORD_BOUND * COORD_BOUND <= nz <= 8 * COORD_BOUND * COORD_BOUND,
                        v3_bounded(v0, COORD_BOUND as int),
                        v3_bounded(r.orig, COORD_BOUND as int),
                        tn0 == nx * (v0.x - r.orig.x) + ny * (v0.y - r.orig.y)
                            + nz * (v0.z - r.orig.z),
                ;
                let t = if nd > 0 {
                    Rat { num: tn0 as i128, den: nd as i128 }
                } else {
                    Rat { num: (-tn0) as i128, den: (-nd) as i128 }
                };
                assert(t.den > 0);
                if tri_edges_ok(v0, v1, v2, r, t) && accept_t(bb, r, lo, hi, t) {
                    if !rlt(t, hi2) {
                        assert(!accept_t(bb, r, lo, hi2, t));
                    }
                } else {
                    if accept_t(bb, r, lo, hi2, t) {
                        crate::rat::lemma_rlt_rle_trans(t, hi2, hi);
                    }
                }
            }
        },
    }
}

/// Bound on the numerator and denominator of a hit parameter; tight enough
/// that edge tests and point evaluation stay inside `i128`.
pub const T_BOUND: i128 = 0x10_0000_0000_0000;

/// A hit parameter within the tight bound.
pub open spec fn t_tight(t: Rat) -> bool {
    0 < t.den <= T_BOUND && -T_BOUND <= t.num <= T_BOUND
}

/// A nonzero integer vector has a positive dot square.
proof fn lemma_dir_sq_pos(d: Vec3i)
    requires
        !(d.x == 0 && d.y == 0 && d.z == 0),
    ensures
        sdot(d, d) >= 1,
{
    assert(d.x * d.x + d.y * d.y + d.z * d.z >= 1) by (nonlinear_arith)
        requires
            !(d.x == 0 && d.y == 0 && d.z == 0),
    ;
}

/// The point at a tight parameter, as an executable rational.
fn at_point(o: i128, d: i128, t: &Rat) -> (p: Rat)
    requires
        -COORD_BOUND <= o <= COORD_BOUND,
        -COORD_BOUND <= d <= COORD_BOUND,
        t_tight(*t),
    ensures
        p == at_rat(o as int, d as int, *t),
        p.num == at_num(o as int, d as int, *t),
        p.den == t.den,
        rat_wf(p),
{
    proof {
        lemma_mul_bound(o as int, t.den as int, COORD_BOUND as int, T_BOUND as int);
        lemma_mul_bound(t.num as int, d as int, T_BOUND as int, COORD_BOUND as int);
    }
    Rat::new(o * t.den + t.num * d, t.den)
}

/// Whether a tight parameter is accepted: strictly inside the interval and
/// reaching a point inside `bb`.
fn accept(bb: &AABB, r: &Ray, lo: &Rat, hi: &Rat, t: &Rat) -> (res: bool)
    requires
        aabb_wf(*bb),
        ray_wf(*r),
        rat_wf(*lo),
        rat_wf(*hi),
        t_tight(*t),
    ensures
        res == accept_t(*bb, *r, *lo, *hi, *t),
{
    proof {
        assert(rat_wf(*t));
    }
    if !lo.lt(t) {
        return false;
    }
    if !t.lt(hi) {
        return false;
    }
    let px = at_point(r.orig.x, r.dir.x, t);
    let py = at_point(r.orig.y, r.dir.y, t);
    let pz = at_point(r.orig.z, r.dir.z, t);
    bb.contains_rat_point(&px, &py, &pz)
}

/// One edge test of the triangle, exactly.
fn edge_test(n: &Vec3i, v: &Vec3i, w: &Vec3i, r: &Ray, t: &Rat) -> (res: bool)
    requires
        v3_bounded(*n, 8 * COORD_BOUND * COORD_BOUND),
        v3_bounded(*v, COORD_BOUND as int),
        v3_bounded(*w, COORD_BOUND as int),
        ray_wf(*r),
        t_tight(*t),
    ensures
        res == edge_ok(n.x as int, n.y as int, n.z as int, v.x as int, v.y as int, v.z as int,
            w.x as int, w.y as int, w.z as int, *r, *t),
{
    let e = w.sub(v);
    let u = r.orig.sub(v);
    let ca = e.cross(&u);
    proof {
        assert(v3_bounded(ca, 8 * COORD_BOUND * COORD_BOUND)) by (nonlinear_arith)
            requires
                v3_bounded(e, 2 * COORD_BOUND as int),
                v3_bounded(u, 2 * COORD_BOUND as int),
                ca.x == e.y * u.z - e.z * u.y,
                ca.y == e.z * u.x - e.x * u.z,
                ca.z == e.x * u.y - e.y * u.x,
        ;
    }
    let a0 = n.dot(&ca);
    let cb = e.cross(&r.dir);
    proof {
        assert(v3_bounded(cb, 4 * COORD_BOUND * COORD_BOUND)) by (nonlinear_arith)
            requires
                v3_bounded(e, 2 * COORD_BOUND as int),
                v3_bounded(r.dir, COORD_BOUND as int),
                cb.x == e.y * r.dir.z - e.z * r.dir.y,
                cb.y == e.z * r.dir.x - e.x * r.dir.z,
                cb.z == e.x * r.dir.y - e.y * r.dir.x,
        ;
    }
    let b0 = n.dot(&cb);
    proof {
        assert(-192 * COORD_BOUND * COORD_BOUND * COORD_BOUND * COORD_BOUND <= a0
            <= 192 * COORD_BOUND * COORD_BOUND * COORD_BOUND * COORD_BOUND) by (nonlinear_arith)
            requires
                v3_bounded(*n, 8 * COORD_BOUND * COORD_BOUND),
                v3_bounded(ca, 8 * COORD_BOUND * COORD_BOUND),
                a0 == n.x * ca.x + n.y * ca.y + n.z * ca.z,
        ;
        assert(-96 * COORD_BOUND * COORD_BOUND * COORD_BOUND * COORD_BOUND <= b0
            <= 96 * COORD_BOUND * COORD_BOUND * COORD_BOUND * COORD_BOUND) by (nonlinear_arith)
            requires
                v3_bounded(*n, 8 * COORD_BOUND * COORD_BOUND),
                v3_bounded(cb, 4 * COORD_BOUND * COORD_BOUND),
                b0 == n.x * cb.x + n.y * cb.y + n.z * cb.z,
        ;
        lemma_mul_bound(a0 as int, t.den as int,
            192 * COORD_BOUND * COORD_BOUND * COORD_BOUND * COORD_BOUND, T_BOUND as int);
        lemma_mul_bound(t.num as int, b0 as int, T_BOUND as int,
            96 * COORD_BOUND * COORD_BOUND * COORD_BOUND * COORD_BOUND);
    }
    a0 * t.den + t.num * b0 > 0
}

impl Primitive {
    /// A sphere with the given center, radius and material handle.  A
    /// negative radius is clamped to zero, as a degenerate sphere.
    pub fn sphere(center: Vec3i, radius: i128, mat: usize) -> (p: Primitive)
        requires
            -COORD_BOUND <= center.x - radius && center.x + radius <= COORD_BOUND,
            -COORD_BOUND <= center.y - radius && center.y + radius <= COORD_BOUND,
            -COORD_BOUND <= center.z - radius && center.z + radius <= COORD_BOUND,
            v3_bounded(center, COORD_BOUND as int),
        ensures
            p == (Primitive::Sphere { center, radius: if radius >= 0 { radius } else { 0 }, mat }),
            prim_wf(p),
    {
        Primitive::Sphere { center, radius: if radius >= 0 { radius } else { 0 }, mat }
    }

    /// A triangle over three vertices with a material handle.
    pub fn triangle(v0: Vec3i, v1: Vec3i, v2: Vec3i, mat: usize) -> (p: Primitive)
        requires
            v3_bounded(v0, COORD_BOUND as int),
            v3_bounded(v1, COORD_BOUND as int),
            v3_bounded(v2, COORD_BOUND as int),
        ensures
            p == (Primitive::Triangle { v0, v1, v2, mat }),
            prim_wf(p),
    {
        Primitive::Triangle { v0, v1, v2, mat }
    }

    /// The material handle.
    pub fn mat(&self) -> (m: usize)
        ensures
            m == prim_mat(*self),
    {
        match self {
            Primitive::Sphere { mat, .. } => *mat,
            Primitive::Triangle { mat, .. } => *mat,
        }
    }

    /// The bounding box of the primitive.
    pub fn to_aabb(&self) -> (b: AABB)
        requires
            prim_wf(*self),
        ensures
            b == prim_aabb(*self),
            aabb_wf(b),
    {
        match self {
            Primitive::Sphere { center, radius, .. } => {
                AABB::new(
                    Vec3i::new(center.x - radius, center.y - radius, center.z - radius),
                    Vec3i::new(center.x + radius, center.y + radius, center.z + radius),
                )
            },
            Primitive::Triangle { v0, v1, v2, .. } => {
                let mnx = if v0.x <= v1.x { v0.x } else { v1.x };
                let mnx = if mnx <= v2.x { mnx } else { v2.x };
                let mny = if v0.y <= v1.y { v0.y } else { v1.y };
                let mny = if mny <= v2.y { mny } else { v2.y };
                let mnz = if v0.z <= v1.z { v0.z } else { v1.z };
                let mnz = if mnz <= v2.z { mnz } else { v2.z };
                let mxx = if v0.x <= v1.x { v1.x } else { v0.x };
                let mxx = if mxx <= v2.x { v2.x } else { mxx };
                let mxy = if v0.y <= v1.y { v1.y } else { v0.y };
                let mxy = if mxy <= v2.y { v2.y } else { mxy };
                let mxz = if v0.z <= v1.z { v1.z } else { v0.z };
                let mxz = if mxz <= v2.z { v2.z } else { mxz };
                AABB::new(Vec3i::new(mnx, mny, mnz), Vec3i::new(mxx, mxy, mxz))
            },
        }
    }

    /// Three times the centroid, so that spheres and triangles sort on a
    /// common integer scale: `3 * center` for a sphere, the vertex sum for
    /// a triangle.
    pub fn centroid3(&self) -> (c: Vec3i)
        requires
            prim_wf(*self),
        ensures
            v3_bounded(c, 3 * COORD_BOUND as int),
            c == prim_centroid3(*self),
    {
        match self {
            Primitive::Sphere { center, .. } => {
                Vec3i::new(3 * center.x, 3 * center.y, 3 * center.z)
            },
            Primitive::Triangle { v0, v1, v2, .. } => {
                Vec3i::new(v0.x + v1.x + v2.x, v0.y + v1.y + v2.y, v0.z + v1.z + v2.z)
            },
        }
    }

    /// Test the ray against this primitive over the open interval
    /// `(lo, hi)`; the result is exactly `prim_hit`.
    pub fn hit(&self, r: &Ray, lo: &Rat, hi: &Rat) -> (res: Option<HitRecord>)
        requires
            prim_wf(*self),
            ray_wf(*r),
            rat_wf(*lo),
            rat_wf(*hi),
        ensures
            res == prim_hit(*self, *r, *lo, *hi),
    {
        match self {
            Primitive::Sphere { center, radius, mat } => {
                sphere_hit(center, *radius, *mat, r, lo, hi)
            },
            Primitive::Triangle { v0, v1, v2, mat } => {
                tri_hit(v0, v1, v2, *mat, r, lo, hi)
            },
        }
    }
}

/// Three times the centroid of a primitive.
pub open spec fn prim_centroid3(p: Primitive) -> Vec3i {
    match p {
        Primitive::Sphere { center, radius, mat } => Vec3i {
            x: (3 * center.x) as i128,
            y: (3 * center.y) as i128,
            z: (3 * center.z) as i128,
        },
        Primitive::Triangle { v0, v1, v2, mat } => Vec3i {
            x: (v0.x + v1.x + v2.x) as i128,
            y: (v0.y + v1.y + v2.y) as i128,
            z: (v0.z + v1.z + v2.z) as i128,
        },
    }
}

/// Build the hit record for a tight parameter.
fn make_rec(p: &Primitive, r: &Ray, t: &Rat) -> (rec: HitRecord)
    requires
        prim_wf(*p),
        ray_wf(*r),
        t_tight(*t),
    ensures
        rec == prim_hit_rec(*p, *r, *t),
{
    let px = at_point(r.orig.x, r.dir.x, t);
    let py = at_point(r.orig.y, r.dir.y, t);
    let pz = at_point(r.orig.z, r.dir.z, t);
    let outward = match p {
        Primitive::Sphere { center, .. } => {
            proof {
                lemma_mul_bound(center.x as int, t.den as int, COORD_BOUND as int, T_BOUND as int);
                lemma_mul_bound(center.y as int, t.den as int, COORD_BOUND as int, T_BOUND as int);
                lemma_mul_bound(center.z as int, t.den as int, COORD_BOUND as int, T_BOUND as int);
            }
            let ow = Vec3i::new(
                px.num - center.x * t.den,
                py.num - center.y * t.den,
                pz.num - center.z * t.den,
            );
            proof {
                assert(ow == prim_outward(*p, *r, *t));
            }
            ow
        },
        Primitive::Triangle { v0, v1, v2, .. } => {
            let e1 = v1.sub(v0);
            let e2 = v2.sub(v0);
            let n = e1.cross(&e2);
            proof {
                assert(v3_bounded(n, 8 * COORD_BOUND * COORD_BOUND)) by (nonlinear_arith)
                    requires
                        v3_bounded(e1, 2 * COORD_BOUND as int),
                        v3_bounded(e2, 2 * COORD_BOUND as int),
                        n.x == e1.y * e2.z - e1.z * e2.y,
                        n.y == e1.z * e2.x - e1.x * e2.z,
                        n.z == e1.x * e2.y - e1.y * e2.x,
                ;
            }
            n
        },
    };
    proof {
        lemma_mul_bound(r.dir.x as int, outward.x as int, COORD_BOUND as int,
            3 * NUM_BOUND as int);
        lemma_mul_bound(r.dir.y as int, outward.y as int, COORD_BOUND as int,
            3 * NUM_BOUND as int);
        lemma_mul_bound(r.dir.z as int, outward.z as int, COORD_BOUND as int,
            3 * NUM_BOUND as int);
    }
    let dn = r.dir.x * outward.x + r.dir.y * outward.y + r.dir.z * outward.z;
    let front = dn < 0;
    let un = unit_scaled(&outward);
    let normal = if front {
        un
    } else {
        Vec3i::new(-un.x, -un.y, -un.z)
    };
    HitRecord {
        px,
        py,
        pz,
        normal,
        mat: p.mat(),
        t: *t,
        front_face: front,
        hits_aabb_edge: false,
    }
}

/// Magnitude bounds on the sphere quadratic, from the world bounds.
proof fn lemma_sphere_mags(center: Vec3i, radius: i128, r: Ray)
    requires
        prim_wf(Primitive::Sphere { center, radius, mat: 0 }),
        ray_wf(r),
    ensures
        1 <= sdot(r.dir, r.dir) <= 3 * COORD_BOUND * COORD_BOUND,
        ({
            let ocx = center.x - r.orig.x;
            let ocy = center.y - r.orig.y;
            let ocz = center.z - r.orig.z;
            let h = r.dir.x * ocx + r.dir.y * ocy + r.dir.z * ocz;
            let c2 = ocx * ocx + ocy * ocy + ocz * ocz - radius * radius;
            let disc = h * h - sdot(r.dir, r.dir) * c2;
            &&& -6 * COORD_BOUND * COORD_BOUND <= h <= 6 * COORD_BOUND * COORD_BOUND
            &&& -13 * COORD_BOUND * COORD_BOUND <= c2 <= 13 * COORD_BOUND * COORD_BOUND
            &&& -75 * COORD_BOUND * COORD_BOUND * COORD_BOUND * COORD_BOUND <= disc
                <= 75 * COORD_BOUND * COORD_BOUND * COORD_BOUND * COORD_BOUND
        }),
{
    lemma_dir_sq_pos(r.dir);
    let c = COORD_BOUND as int;
    let ocx = center.x - r.orig.x;
    let ocy = center.y - r.orig.y;
    let ocz = center.z - r.orig.z;
    let a = sdot(r.dir, r.dir);
    let h = r.dir.x * ocx + r.dir.y * ocy + r.dir.z * ocz;
    let c2 = ocx * ocx + ocy * ocy + ocz * ocz - radius * radius;
    assert(a <= 3 * c * c) by (nonlinear_arith)
        requires
            c > 0,
            -c <= r.dir.x <= c,
            -c <= r.dir.y <= c,
            -c <= r.dir.z <= c,
            a == r.dir.x * r.dir.x + r.dir.y * r.dir.y + r.dir.z * r.dir.z,
    ;
    assert(-6 * c * c <= h <= 6 * c * c) by (nonlinear_arith)
        requires
            c > 0,
            -c <= r.dir.x <= c,
            -c <= r.dir.y <= c,
            -c <= r.dir.z <= c,
            -2 * c <= ocx <= 2 * c,
            -2 * c <= ocy <= 2 * c,
            -2 * c <= ocz <= 2 * c,
            h == r.dir.x * ocx + r.dir.y * ocy + r.dir.z * ocz,
    ;
    assert(-13 * c * c <= c2 <= 13 * c * c) by (nonlinear_arith)
        requires
            c > 0,
            -2 * c <= ocx <= 2 * c,
            -2 * c <= ocy <= 2 * c,
            -2 * c <= ocz <= 2 * c,
            0 <= radius <= c,
            c2 == ocx * ocx + ocy * ocy + ocz * ocz - radius * radius,
    ;
    assert(-75 * c * c * c * c <= h * h - a * c2 <= 75 * c * c * c * c)
        by (nonlinear_arith)
        requires
            c > 0,
            -6 * c * c <= h <= 6 * c * c,
            -13 * c * c <= c2 <= 13 * c * c,
            0 <= a <= 3 * c * c,
    ;
}

/// Exact sphere hit.
fn sphere_hit(center: &Vec3i, radius: i128, mat: usize, r: &Ray, lo: &Rat, hi: &Rat)
    -> (res: Option<HitRecord>)
    requires
        prim_wf(Primitive::Sphere { center: *center, radius, mat }),
        ray_wf(*r),
        rat_wf(*lo),
        rat_wf(*hi),
    ensures
        res == prim_hit(Primitive::Sphere { center: *center, radius, mat }, *r, *lo, *hi),
{
    let ghost pg = Primitive::Sphere { center: *center, radius, mat };
    proof {
        lemma_sphere_mags(*center, radius, *r);
        assert(prim_wf(Primitive::Sphere { center: *center, radius, mat: 0 }));
    }
    let oc = center.sub(&r.orig);
    let a = r.dir.dot(&r.dir);
    let h = r.dir.dot(&oc);
    proof {
        lemma_mul_bound(h as int, h as int,
            6 * COORD_BOUND * COORD_BOUND, 6 * COORD_BOUND * COORD_BOUND);
        lemma_mul_bound(oc.x as int, oc.x as int, 2 * COORD_BOUND as int, 2 * COORD_BOUND as int);
        lemma_mul_bound(oc.y as int, oc.y as int, 2 * COORD_BOUND as int, 2 * COORD_BOUND as int);
        lemma_mul_bound(oc.z as int, oc.z as int, 2 * COORD_BOUND as int, 2 * COORD_BOUND as int);
        lemma_mul_bound(radius as int, radius as int, COORD_BOUND as int, COORD_BOUND as int);
    }
    let c2 = oc.x * oc.x + oc.y * oc.y + oc.z * oc.z - radius * radius;
    proof {
        lemma_mul_bound(a as int, c2 as int, 3 * COORD_BOUND * COORD_BOUND,
            13 * COORD_BOUND * COORD_BOUND);
    }
    let disc = h * h - a * c2;
    if disc < 0 {
        return None;
    }
    let kk: i128 = COORD_BOUND * COORD_BOUND;
    proof {
        lemma_mul_bound(disc as int, kk as int,
            75 * COORD_BOUND * COORD_BOUND * COORD_BOUND * COORD_BOUND,
            COORD_BOUND * COORD_BOUND);
    }
    let sq128 = isqrt((disc as u128) * (kk as u128));
    proof {
        let dkk = disc as int * (kk as int);
        assert(sq128 * sq128 <= dkk);
        assert(sq128 as int <= 9 * COORD_BOUND * COORD_BOUND * COORD_BOUND) by (nonlinear_arith)
            requires
                sq128 * sq128 <= dkk,
                dkk <= 75 * COORD_BOUND * COORD_BOUND * COORD_BOUND * COORD_BOUND
                    * COORD_BOUND * COORD_BOUND,
                sq128 >= 0,
        ;
    }
    let sq = sq128 as i128;
    let den = a * COORD_BOUND;
    proof {
        assert(den <= 3 * COORD_BOUND * COORD_BOUND * COORD_BOUND) by (nonlinear_arith)
            requires
                0 <= a <= 3 * COORD_BOUND * COORD_BOUND,
                den == a * COORD_BOUND,
        ;
        assert(den >= COORD_BOUND) by (nonlinear_arith)
            requires
                a >= 1,
                den == a * COORD_BOUND,
        ;
        lemma_mul_bound(h as int, COORD_BOUND as int,
            6 * COORD_BOUND * COORD_BOUND, COORD_BOUND as int);
    }
    let r1 = Rat::new(h * COORD_BOUND - sq, den);
    let r2 = Rat::new(h * COORD_BOUND + sq, den);
    proof {
        assert(t_tight(r1) && t_tight(r2));
    }
    let bb = Primitive::sphere(*center, radius, mat).to_aabb();
    if accept(&bb, r, lo, hi, &r1) {
        Some(make_rec(&Primitive::Sphere { center: *center, radius, mat }, r, &r1))
    } else if accept(&bb, r, lo, hi, &r2) {
        Some(make_rec(&Primitive::Sphere { center: *center, radius, mat }, r, &r2))
    } else {
        None
    }
}

/// Exact triangle hit.
fn tri_hit(v0: &Vec3i, v1: &Vec3i, v2: &Vec3i, mat: usize, r: &Ray, lo: &Rat, hi: &Rat)
    -> (res: Option<HitRecord>)
    requires
        prim_wf(Primitive::Triangle { v0: *v0, v1: *v1, v2: *v2, mat }),
        ray_wf(*r),
        rat_wf(*lo),
        rat_wf(*hi),
    ensures
        res == prim_hit(Primitive::Triangle { v0: *v0, v1: *v1, v2: *v2, mat }, *r, *lo, *hi),
{
    let e1 = v1.sub(v0);
    let e2 = v2.sub(v0);
    let n = e1.cross(&e2);
    proof {
        assert(v3_bounded(n, 8 * COORD_BOUND * COORD_BOUND)) by (nonlinear_arith)
            requires
                v3_bounded(e1, 2 * COORD_BOUND as int),
                v3_bounded(e2, 2 * COORD_BOUND as int),
                n.x == e1.y * e2.z - e1.z * e2.y,
                n.y == e1.z * e2.x - e1.x * e2.z,
                n.z == e1.x * e2.y - e1.y * e2.x,
        ;
    }
    let nd = n.dot(&r.dir);
    proof {
        assert(-24 * COORD_BOUND * COORD_BOUND * COORD_BOUND <= nd
            <= 24 * COORD_BOUND * COORD_BOUND * COORD_BOUND) by (nonlinear_arith)
            requires
                v3_bounded(n, 8 * COORD_BOUND * COORD_BOUND),
                v3_bounded(r.dir, COORD_BOUND as int),
                nd == n.x * r.dir.x + n.y * r.dir.y + n.z * r.dir.z,
        ;
    }
    if nd == 0 {
        return None;
    }
    let w0 = v0.sub(&r.orig);
    let tn0 = n.dot(&w0);
    proof {
        assert(-48 * COORD_BOUND * COORD_BOUND * COORD_BOUND <= tn0
            <= 48 * COORD_BOUND * COORD_BOUND * COORD_BOUND) by (nonlinear_arith)
            requires
                v3_bounded(n, 8 * COORD_BOUND * COORD_BOUND),
                v3_bounded(w0, 2 * COORD_BOUND as int),
                tn0 == n.x * w0.x + n.y * w0.y + n.z * w0.z,
        ;
    }
    let t = if nd > 0 {
        Rat::new(tn0, nd)
    } else {
        Rat::new(-tn0, -nd)
    };
    let bb = Primitive::triangle(*v0, *v1, *v2, mat).to_aabb();
    let edges = edge_test(&n, v0, v1, r, &t)
        && edge_test(&n, v1, v2, r, &t)
        && edge_test(&n, v2, v0, r, &t);
    if edges && accept(&bb, r, lo, hi, &t) {
        Some(make_rec(&Primitive::Triangle { v0: *v0, v1: *v1, v2: *v2, mat }, r, &t))
    } else {
        None
    }
}

} // verus!
