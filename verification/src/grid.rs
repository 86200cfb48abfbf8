//! The uniform voxel grid: a flat array of buckets, each listing exactly
//! the primitives whose boxes overlap its voxel, walked per ray by the
//! incremental stepping scheme.  The walk visits at most `nx + ny + nz`
//! voxels, and any hit it returns is a genuine nearest-candidate hit of the
//! scene.

use vstd::prelude::*;
use crate::aabb::{AABB, aabb_wf, overlap};
use crate::bvh::{box_subset, lemma_box_miss, lemma_at_range_mono};
use crate::data::Data;
use crate::hit::{HitRecord, Primitive, prim_aabb, prim_hit, prim_hit_t, prim_hit_rec, prim_wf,
    t_tight, lemma_prim_restrict, lemma_prim_hit_t_props};
use crate::hittable_list::{objs_wf, range_hit_at, range_none_before, range_misses,
    nearest_hit_in};
use crate::rat::{Rat, rat_wf, rle, rlt, rat_min, NUM_BOUND, DEN_BOUND, lemma_rlt_rle_trans,
    lemma_rle_trans, lemma_rle_rlt_trans, lemma_rlt_trans};
use crate::slab::{slab_hits, box_enter, lemma_slab_complete, lemma_enter_point_in_box};
use crate::ray::{Ray, ray_wf, at_num, at_in_range};
use crate::vec3i::{Vec3i, v3_bounded, COORD_BOUND};

verus! {

/// One voxel: its box and the indices of the primitives whose boxes
/// overlap it.
#[derive(Clone, Debug)]
pub struct GridBox {
    pub aabb: AABB,
    pub objects: Vec<usize>,
}

/// The uniform grid.
pub struct Grid {
    pub objects: Vec<Primitive>,
    pub boxes: Vec<GridBox>,
    pub box_size: Vec3i,
    pub origin: Vec3i,
    pub nx: usize,
    pub ny: usize,
    pub nz: usize,
    pub aabb: AABB,
}

/// The exact-membership law of one bucket: an index is listed iff it is a
/// real primitive whose box overlaps the voxel's box.
pub open spec fn bucket_exact(bucket: Seq<usize>, objs: Seq<Primitive>, vox: AABB) -> bool {
    forall|o: usize| #[trigger] bucket.contains(o)
        <==> o < objs.len() && overlap(prim_aabb(objs[o as int]), vox)
}

/// The lower face of voxel `c` on one axis.
pub open spec fn slab_lo(gmin: int, s: int, c: int) -> int {
    gmin + c * s
}

/// The upper face of voxel `c` on one axis.
pub open spec fn slab_hi(gmin: int, s: int, c: int) -> int {
    gmin + (c + 1) * s
}

/// The box of the voxel with linear index `v`, on the lattice spanned by the
/// grid's origin and per-axis voxel sizes.
pub open spec fn vox_box_of(origin: Vec3i, box_size: Vec3i, nx: int, ny: int, v: int) -> AABB {
    let i = v % nx;
    let j = (v / nx) % ny;
    let k = v / (nx * ny);
    AABB {
        min: Vec3i {
            x: slab_lo(origin.x as int, box_size.x as int, i) as i128,
            y: slab_lo(origin.y as int, box_size.y as int, j) as i128,
            z: slab_lo(origin.z as int, box_size.z as int, k) as i128,
        },
        max: Vec3i {
            x: slab_hi(origin.x as int, box_size.x as int, i) as i128,
            y: slab_hi(origin.y as int, box_size.y as int, j) as i128,
            z: slab_hi(origin.z as int, box_size.z as int, k) as i128,
        },
    }
}

/// The grid invariant: sound geometry, the voxel boxes on their exact
/// lattice, every bucket exact, and the whole scene inside the outer box.
/// The last clause is what lets the walk be complete: a hit point always
/// lies in some voxel, so the bucket that was scanned when the walk passed
/// that voxel listed the primitive.
pub open spec fn grid_ok(g: Grid) -> bool {
    &&& objs_wf(g.objects@)
    &&& aabb_wf(g.aabb)
    &&& g.box_size.x >= 1 && g.box_size.y >= 1 && g.box_size.z >= 1
    &&& g.origin == g.aabb.min
    &&& g.nx >= 1 && g.ny >= 1 && g.nz >= 1
    &&& g.boxes@.len() == g.nx * g.ny * g.nz
    &&& (forall|v: int| 0 <= v < g.boxes@.len() ==> aabb_wf(#[trigger] g.boxes@[v].aabb))
    &&& (forall|v: int| 0 <= v < g.boxes@.len() ==> #[trigger] g.boxes@[v].aabb
            == vox_box_of(g.origin, g.box_size, g.nx as int, g.ny as int, v))
    &&& (forall|v: int| 0 <= v < g.boxes@.len()
            ==> bucket_exact(#[trigger] g.boxes@[v].objects@, g.objects@, g.boxes@[v].aabb))
    &&& (forall|o: int| 0 <= o < g.objects@.len()
            ==> box_subset(prim_aabb(#[trigger] g.objects@[o]), g.aabb))
    &&& g.nx * g.box_size.x == g.aabb.max.x - g.aabb.min.x
    &&& g.ny * g.box_size.y == g.aabb.max.y - g.aabb.min.y
    &&& g.nz * g.box_size.z == g.aabb.max.z - g.aabb.min.z
    &&& g.boxes@.len() <= 0x1000_0000
}

/// The boundary-crossing parameter the walk keeps on one axis: the crossing
/// of voxel `c`'s upper face when the ray travels up the axis, of its lower
/// face when it travels down, and a never-reached sentinel when it is
/// parallel.
pub open spec fn tm_ok(o: int, d: int, gmin: int, s: int, c: int, tm: Rat) -> bool {
    if d > 0 {
        tm.num == slab_hi(gmin, s, c) - o && tm.den == d
    } else if d < 0 {
        tm.num == o - slab_lo(gmin, s, c) && tm.den == -d
    } else {
        tm.num == NUM_BOUND && tm.den == 1
    }
}

/// The ray's point at `t` lies in the voxel with lattice coordinates
/// `(ci, cj, ck)`, axis by axis.
pub open spec fn in_voxel_at(g: Grid, r: Ray, t: Rat, ci: int, cj: int, ck: int) -> bool {
    &&& at_in_range(r.orig.x as int, r.dir.x as int, t,
            slab_lo(g.origin.x as int, g.box_size.x as int, ci),
            slab_hi(g.origin.x as int, g.box_size.x as int, ci))
    &&& at_in_range(r.orig.y as int, r.dir.y as int, t,
            slab_lo(g.origin.y as int, g.box_size.y as int, cj),
            slab_hi(g.origin.y as int, g.box_size.y as int, cj))
    &&& at_in_range(r.orig.z as int, r.dir.z as int, t,
            slab_lo(g.origin.z as int, g.box_size.z as int, ck),
            slab_hi(g.origin.z as int, g.box_size.z as int, ck))
}

/// What a bucket scan reports: a returned record is the nearest hit among
/// the listed primitives, and on `None` none of them hits at all.
pub open spec fn bucket_scan_post(objs: Seq<Primitive>, idxs: Seq<usize>, r: Ray, lo: Rat,
    hi: Rat, res: Option<HitRecord>) -> bool {
    match res {
        Some(rec) => {
            &&& exists|j: int| 0 <= j < idxs.len()
                && #[trigger] prim_hit_t(objs[idxs[j] as int], r, lo, hi) == Some(rec.t)
                && rec == prim_hit_rec(objs[idxs[j] as int], r, rec.t)
            &&& forall|j: int| 0 <= j < idxs.len()
                && #[trigger] prim_hit_t(objs[idxs[j] as int], r, lo, hi) is Some
                ==> rle(rec.t, prim_hit_t(objs[idxs[j] as int], r, lo, hi)->Some_0)
            &&& t_tight(rec.t)
            &&& rlt(lo, rec.t)
            &&& rlt(rec.t, hi)
        },
        None => forall|j: int| 0 <= j < idxs.len()
            ==> #[trigger] prim_hit_t(objs[idxs[j] as int], r, lo, hi) is None,
    }
}

/// Scan a bucket's index list for the nearest hit within `(lo, hi)`: a
/// returned record is the nearest hit among the listed primitives over the
/// full interval, and `None` means none of them hits in it.
fn hit_bucket(objects: &Vec<Primitive>, idxs: &Vec<usize>, r: &Ray, lo: &Rat, hi: &Rat,
    data: &mut Data) -> (res: Option<HitRecord>)
    requires
        objs_wf(objects@),
        forall|j: int| 0 <= j < idxs@.len() ==> #[trigger] idxs@[j] < objects@.len(),
        ray_wf(*r),
        rat_wf(*lo),
        rat_wf(*hi),
    ensures
        bucket_scan_post(objects@, idxs@, *r, *lo, *hi, res),
        final(data).traversal_steps == old(data).traversal_steps,
{
    let m = idxs.len();
    let mut acc: Option<HitRecord> = None;
    let mut closest: Rat = *hi;
    let mut k: usize = 0;
    while k < m
        invariant
            objs_wf(objects@),
            forall|j: int| 0 <= j < idxs@.len() ==> #[trigger] idxs@[j] < objects@.len(),
            ray_wf(*r),
            rat_wf(*lo),
            rat_wf(*hi),
            m == idxs@.len(),
            k <= m,
            rat_wf(closest),
            rle(closest, *hi),
            data.traversal_steps == old(data).traversal_steps,
            match acc {
                Some(rec) => {
                    &&& closest == rec.t
                    &&& t_tight(rec.t)
                    &&& rlt(*lo, rec.t)
                    &&& rlt(rec.t, *hi)
                    &&& exists|j: int| 0 <= j < idxs@.len()
                        && #[trigger] prim_hit_t(objects@[idxs@[j] as int], *r, *lo, *hi)
                            == Some(rec.t)
                        && rec == prim_hit_rec(objects@[idxs@[j] as int], *r, rec.t)
                    &&& forall|j: int| 0 <= j < k
                        && #[trigger] prim_hit_t(objects@[idxs@[j] as int], *r, *lo, *hi) is Some
                        ==> rle(rec.t, prim_hit_t(objects@[idxs@[j] as int], *r, *lo, *hi)->Some_0)
                },
                None => {
                    &&& closest == *hi
                    &&& forall|j: int| 0 <= j < k
                        ==> #[trigger] prim_hit_t(objects@[idxs@[j] as int], *r, *lo, *hi) is None
                },
            },
        decreases m - k,
    {
        let i = idxs[k];
        let obj = &objects[i];
        data.add_intersection_check();
        let step = obj.hit(r, lo, &closest);
        proof {
            lemma_prim_restrict(objects@[i as int], *r, *lo, *hi, closest);
            lemma_prim_hit_t_props(objects@[i as int], *r, *lo, *hi);
        }
        match step {
            Some(rec) => {
                proof {
                    assert(prim_hit_t(objects@[i as int], *r, *lo, *hi) == Some(rec.t));
                    assert(idxs@[k as int] == i);
                    if acc is Some {
                        let prev = acc->Some_0;
                        assert forall|j: int| 0 <= j < k + 1
                            && #[trigger] prim_hit_t(objects@[idxs@[j] as int], *r, *lo, *hi)
                                is Some
                            implies rle(rec.t,
                                prim_hit_t(objects@[idxs@[j] as int], *r, *lo, *hi)->Some_0) by {
                            let u = prim_hit_t(objects@[idxs@[j] as int], *r, *lo, *hi)->Some_0;
                            lemma_prim_hit_t_props(objects@[idxs@[j] as int], *r, *lo, *hi);
                            if j < k {
                                crate::rat::lemma_rlt_rle_trans(rec.t, prev.t, u);
                            }
                        }
                    } else {
                        assert forall|j: int| 0 <= j < k + 1
                            && #[trigger] prim_hit_t(objects@[idxs@[j] as int], *r, *lo, *hi)
                                is Some
                            implies rle(rec.t,
                                prim_hit_t(objects@[idxs@[j] as int], *r, *lo, *hi)->Some_0) by {
                        }
                    }
                }
                closest = rec.t;
                acc = Some(rec);
            },
            None => {
                proof {
                    if acc is Some {
                        let prev = acc->Some_0;
                        assert forall|j: int| 0 <= j < k + 1
                            && #[trigger] prim_hit_t(objects@[idxs@[j] as int], *r, *lo, *hi)
                                is Some
                            implies rle(prev.t,
                                prim_hit_t(objects@[idxs@[j] as int], *r, *lo, *hi)->Some_0) by {
                            lemma_prim_hit_t_props(objects@[idxs@[j] as int], *r, *lo, *hi);
                        }
                    }
                }
            },
        }
        k = k + 1;
    }
    acc
}

impl Grid {
    /// Build the grid over `[origin, end]` with the given voxel edge
    /// lengths, which must tile the span exactly.  Every bucket ends up
    /// exact: it lists precisely the primitives whose boxes overlap its
    /// voxel.  Every primitive's box must lie inside the outer box: that is
    /// what makes the walk complete, since a hit point then always lies in
    /// some voxel whose bucket names the primitive.
    pub fn new(objects: Vec<Primitive>, box_size: Vec3i, origin: Vec3i, end: Vec3i) -> (g: Grid)
        requires
            objs_wf(objects@),
            v3_bounded(origin, COORD_BOUND as int),
            v3_bounded(end, COORD_BOUND as int),
            box_size.x >= 1 && box_size.y >= 1 && box_size.z >= 1,
            origin.x < end.x && origin.y < end.y && origin.z < end.z,
            (end.x - origin.x) % (box_size.x as int) == 0,
            (end.y - origin.y) % (box_size.y as int) == 0,
            (end.z - origin.z) % (box_size.z as int) == 0,
            ((end.x - origin.x) / (box_size.x as int)) * ((end.y - origin.y) / (box_size.y as int))
                * ((end.z - origin.z) / (box_size.z as int)) <= 0x1000_0000,
            forall|o: int| 0 <= o < objects@.len()
                ==> box_subset(prim_aabb(#[trigger] objects@[o]),
                    AABB { min: origin, max: end }),
        ensures
            grid_ok(g),
            g.objects@ == objects@,
            g.aabb == (AABB { min: origin, max: end }),
            g.nx * g.box_size.x == g.aabb.max.x - g.aabb.min.x,
            g.ny * g.box_size.y == g.aabb.max.y - g.aabb.min.y,
            g.nz * g.box_size.z == g.aabb.max.z - g.aabb.min.z,
    {
        broadcast use vstd::seq_lib::lemma_seq_contains_after_push;

        let ex = end.x - origin.x;
        let ey = end.y - origin.y;
        let ez = end.z - origin.z;
        let qx = ex / box_size.x;
        let qy = ey / box_size.y;
        let qz = ez / box_size.z;
        proof {
            lemma_exact_tile(ex as int, box_size.x as int);
            lemma_exact_tile(ey as int, box_size.y as int);
            lemma_exact_tile(ez as int, box_size.z as int);
            assert(1 <= qx * qy && qx * qy <= qx * qy * qz) by (nonlinear_arith)
                requires
                    qx >= 1,
                    qy >= 1,
                    qz >= 1,
            ;
        }
        let nx = qx as usize;
        let ny = qy as usize;
        let nz = qz as usize;
        let total = nx * ny * nz;
        let mut boxes: Vec<GridBox> = Vec::new();
        let mut v: usize = 0;
        while v < total
            invariant
                objs_wf(objects@),
                nx >= 1 && ny >= 1 && nz >= 1,
                nx * ny * nz == total,
                total <= 0x1000_0000,
                v <= total,
                boxes@.len() == v,
                v3_bounded(origin, COORD_BOUND as int),
                box_size.x >= 1 && box_size.y >= 1 && box_size.z >= 1,
                nx * box_size.x == end.x - origin.x,
                ny * box_size.y == end.y - origin.y,
                nz * box_size.z == end.z - origin.z,
                v3_bounded(end, COORD_BOUND as int),
                forall|w: int| 0 <= w < v ==> aabb_wf(#[trigger] boxes@[w].aabb),
                forall|w: int| 0 <= w < v ==> #[trigger] boxes@[w].aabb
                    == vox_box_of(origin, box_size, nx as int, ny as int, w),
                forall|w: int| 0 <= w < v
                    ==> bucket_exact(#[trigger] boxes@[w].objects@, objects@, boxes@[w].aabb),
            decreases total - v,
        {
            let i = v % nx;
            let j = (v / nx) % ny;
            proof {
                assert(1 <= nx * ny <= total) by (nonlinear_arith)
                    requires
                        nx >= 1,
                        ny >= 1,
                        nz >= 1,
                        nx * ny * nz == total,
                ;
            }
            let k = v / (nx * ny);
            proof {
                lemma_decompose_bounds(v as int, nx as int, ny as int, nz as int);
                lemma_voxel_coord(origin.x as int, end.x as int, box_size.x as int, nx as int,
                    i as int);
                lemma_voxel_coord(origin.y as int, end.y as int, box_size.y as int, ny as int,
                    j as int);
                lemma_voxel_coord(origin.z as int, end.z as int, box_size.z as int, nz as int,
                    k as int);
            }
            let mn = Vec3i::new(
                origin.x + (i as i128) * box_size.x,
                origin.y + (j as i128) * box_size.y,
                origin.z + (k as i128) * box_size.z,
            );
            let mx = Vec3i::new(mn.x + box_size.x, mn.y + box_size.y, mn.z + box_size.z);
            let mut gb = GridBox::new(mn, mx);
            let nobj = objects.len();
            let mut o: usize = 0;
            while o < nobj
                invariant
                    objs_wf(objects@),
                    nobj == objects@.len(),
                    o <= nobj,
                    aabb_wf(gb.aabb),
                    gb.aabb.min == mn && gb.aabb.max == mx,
                    forall|q: usize| #[trigger] gb.objects@.contains(q)
                        <==> q < o && overlap(prim_aabb(objects@[q as int]), gb.aabb),
                decreases nobj - o,
            {
                let ob = objects[o].to_aabb();
                let ghost pre = gb.objects@;
                gb.try_add(&ob, o);
                proof {
                    broadcast use vstd::seq_lib::lemma_seq_contains_after_push;

                    assert forall|q: usize| #[trigger] gb.objects@.contains(q)
                        implies q < o + 1 && overlap(prim_aabb(objects@[q as int]), gb.aabb) by {
                        if q != o {
                            assert(pre.contains(q));
                        }
                    }
                    assert forall|q: usize|
                        q < o + 1 && overlap(prim_aabb(objects@[q as int]), gb.aabb)
                        implies #[trigger] gb.objects@.contains(q) by {
                        if q != o {
                            assert(pre.contains(q));
                        }
                    }
                }
                o = o + 1;
            }
            proof {
                assert(i as int == (v as int) % (nx as int));
                assert(j as int == ((v as int) / (nx as int)) % (ny as int));
                assert(k as int == (v as int) / ((nx as int) * (ny as int)));
                assert((i as int + 1) * (box_size.x as int) == i as int * (box_size.x as int)
                    + box_size.x as int) by (nonlinear_arith);
                assert((j as int + 1) * (box_size.y as int) == j as int * (box_size.y as int)
                    + box_size.y as int) by (nonlinear_arith);
                assert((k as int + 1) * (box_size.z as int) == k as int * (box_size.z as int)
                    + box_size.z as int) by (nonlinear_arith);
                assert(gb.aabb == vox_box_of(origin, box_size, nx as int, ny as int, v as int));
            }
            boxes.push(gb);
            v = v + 1;
        }
        Grid {
            objects,
            boxes,
            box_size,
            origin,
            nx,
            ny,
            nz,
            aabb: AABB::new(origin, end),
        }
    }
}

/// An exactly tiled positive span has at least one whole tile.
proof fn lemma_exact_tile(e: int, s: int)
    requires
        e >= 1,
        s >= 1,
        e % s == 0,
    ensures
        1 <= e / s,
        (e / s) * s == e,
    decreases e,
{
    vstd::arithmetic::div_mod::lemma_fundamental_div_mod(e, s);
    assert(1 <= e / s) by (nonlinear_arith)
        requires
            e >= 1,
            s >= 1,
            e == s * (e / s),
    ;
    assert((e / s) * s == s * (e / s)) by (nonlinear_arith);
}

/// Decomposing a linear voxel index stays inside the per-axis counts.
proof fn lemma_decompose_bounds(v: int, nx: int, ny: int, nz: int) by (nonlinear_arith)
    requires
        nx >= 1,
        ny >= 1,
        nz >= 1,
        0 <= v < nx * ny * nz,
    ensures
        0 <= v % nx < nx,
        0 <= (v / nx) % ny < ny,
        0 <= v / (nx * ny) < nz,
{
}

/// A voxel's slab on one axis stays inside the world bound.
proof fn lemma_voxel_coord(o: int, e: int, s: int, n: int, i: int) by (nonlinear_arith)
    requires
        -COORD_BOUND <= o <= COORD_BOUND,
        -COORD_BOUND <= e <= COORD_BOUND,
        s >= 1,
        n >= 1,
        n * s == e - o,
        0 <= i < n,
    ensures
        o <= o + i * s,
        o + i * s + s <= e,
{
}

/// A very large parameter bound, standing in for the never-reached boundary
/// of an axis the ray is parallel to.
fn big_rat() -> (r: Rat)
    ensures
        rat_wf(r),
        r.num == NUM_BOUND && r.den == 1,
{
    Rat::new(NUM_BOUND, 1)
}

/// The voxel coordinate of a rational point on one axis: the floor of its
/// offset from the grid origin divided by the voxel edge, with a point on
/// the grid's far face counted into the last voxel.
fn voxel_coord(p_num: i128, p_den: i128, gmin: i128, s: i128, n: usize) -> (c: usize)
    requires
        0 < p_den <= DEN_BOUND,
        -COORD_BOUND <= gmin <= COORD_BOUND,
        1 <= s <= 2 * COORD_BOUND,
        1 <= n <= 0x1000_0000,
        gmin as int + (n as int) * (s as int) <= COORD_BOUND,
        (gmin as int) * p_den <= p_num,
        p_num <= (gmin as int + (n as int) * (s as int)) * p_den,
    ensures
        c < n,
        slab_lo(gmin as int, s as int, c as int) * p_den <= p_num,
        p_num <= slab_hi(gmin as int, s as int, c as int) * p_den,
{
    proof {
        assert(0 <= (n as int) * (s as int)) by (nonlinear_arith)
            requires
                n >= 1,
                s >= 1,
        ;
        crate::num::lemma_mul_bound(gmin as int, p_den as int, COORD_BOUND as int,
            DEN_BOUND as int);
        crate::num::lemma_mul_bound(gmin as int + (n as int) * (s as int), p_den as int,
            COORD_BOUND as int, DEN_BOUND as int);
        assert(p_den * s > 0) by (nonlinear_arith)
            requires
                p_den > 0,
                s > 0,
        ;
        crate::num::lemma_mul_bound(p_den as int, s as int, DEN_BOUND as int,
            2 * COORD_BOUND as int);
    }
    let num_off = p_num - gmin * p_den;
    let den2 = p_den * s;
    let q128 = (num_off as u128) / (den2 as u128);
    proof {
        vstd::arithmetic::div_mod::lemma_fundamental_div_mod(num_off as int, den2 as int);
        assert(q128 as int == num_off as int / den2 as int);
    }
    let c: usize = if q128 >= n as u128 {
        proof {
            let q = num_off as int / den2 as int;
            assert(num_off >= (n as int) * den2) by (nonlinear_arith)
                requires
                    q >= n as int,
                    den2 > 0,
                    num_off == den2 * q + num_off as int % (den2 as int),
                    num_off as int % (den2 as int) >= 0,
            ;
            assert(p_num == (gmin as int + (n as int) * (s as int)) * p_den
                && (gmin as int + ((n - 1) as int) * (s as int)) * p_den <= p_num)
                by (nonlinear_arith)
                requires
                    num_off == p_num - gmin as int * p_den,
                    den2 == p_den * s,
                    num_off >= (n as int) * den2,
                    p_num <= (gmin as int + (n as int) * (s as int)) * p_den,
                    p_den > 0,
                    s >= 1,
                    n >= 1,
            ;
        }
        n - 1
    } else {
        proof {
            let q = q128 as int;
            assert(q * den2 <= num_off && num_off < (q + 1) * den2) by (nonlinear_arith)
                requires
                    den2 > 0,
                    q >= 0,
                    num_off == den2 * q + num_off as int % (den2 as int),
                    0 <= num_off as int % (den2 as int) < den2,
            ;
            assert((gmin as int + q * (s as int)) * p_den <= p_num
                && p_num < (gmin as int + (q + 1) * (s as int)) * p_den) by (nonlinear_arith)
                requires
                    num_off == p_num - gmin as int * p_den,
                    den2 == p_den * s,
                    q * den2 <= num_off,
                    num_off < (q + 1) * den2,
            ;
        }
        q128 as usize
    };
    c
}

/// On one axis the coordinate stays inside the voxel slab for every
/// parameter between a covered point and the boundary crossing.
proof fn lemma_axis_span(o: int, d: int, gmin: int, s: int, c: int, tc: Rat, tm: Rat, t: Rat)
    requires
        tc.den > 0,
        t.den > 0,
        tm.den > 0,
        at_in_range(o, d, tc, slab_lo(gmin, s, c), slab_hi(gmin, s, c)),
        tm_ok(o, d, gmin, s, c, tm),
        rle(tc, t),
        d != 0 ==> rle(t, tm),
    ensures
        at_in_range(o, d, t, slab_lo(gmin, s, c), slab_hi(gmin, s, c)),
{
    let lo_b = slab_lo(gmin, s, c);
    let hi_b = slab_hi(gmin, s, c);
    if d > 0 {
        assert(o * t.den + t.num * d <= hi_b * t.den) by (nonlinear_arith)
            requires
                t.den > 0,
                t.num * d <= (hi_b - o) * t.den,
        ;
        assert(lo_b * t.den <= o * t.den + t.num * d) by (nonlinear_arith)
            requires
                tc.den > 0,
                t.den > 0,
                d > 0,
                lo_b * tc.den <= o * tc.den + tc.num * d,
                tc.num * t.den <= t.num * tc.den,
        ;
    } else if d < 0 {
        assert(lo_b * t.den <= o * t.den + t.num * d) by (nonlinear_arith)
            requires
                t.den > 0,
                t.num * (-d) <= (o - lo_b) * t.den,
        ;
        assert(o * t.den + t.num * d <= hi_b * t.den) by (nonlinear_arith)
            requires
                tc.den > 0,
                t.den > 0,
                d < 0,
                o * tc.den + tc.num * d <= hi_b * tc.den,
                tc.num * t.den <= t.num * tc.den,
        ;
    } else {
        assert(lo_b * t.den <= o * t.den + t.num * d && o * t.den + t.num * d <= hi_b * t.den)
            by (nonlinear_arith)
            requires
                tc.den > 0,
                t.den > 0,
                d == 0,
                lo_b * tc.den <= o * tc.den,
                o * tc.den <= hi_b * tc.den,
        ;
    }
}

/// The covered parameter never lies beyond the boundary crossing.
proof fn lemma_tc_le_tm(o: int, d: int, gmin: int, s: int, c: int, tc: Rat, tm: Rat)
    requires
        tc.den > 0,
        tm.den > 0,
        -NUM_BOUND <= tc.num <= NUM_BOUND,
        at_in_range(o, d, tc, slab_lo(gmin, s, c), slab_hi(gmin, s, c)),
        tm_ok(o, d, gmin, s, c, tm),
    ensures
        rle(tc, tm),
{
    if d > 0 {
        assert(tc.num * tm.den <= tm.num * tc.den) by (nonlinear_arith)
            requires
                tm.den == d,
                tm.num == slab_hi(gmin, s, c) - o,
                o * tc.den + tc.num * d <= slab_hi(gmin, s, c) * tc.den,
        ;
    } else if d < 0 {
        assert(tc.num * tm.den <= tm.num * tc.den) by (nonlinear_arith)
            requires
                tm.den == -d,
                tm.num == o - slab_lo(gmin, s, c),
                slab_lo(gmin, s, c) * tc.den <= o * tc.den + tc.num * d,
        ;
    } else {
        assert(tc.num * tm.den <= tm.num * tc.den) by (nonlinear_arith)
            requires
                tm.den == 1,
                tm.num == NUM_BOUND as int,
                tc.den > 0,
                tc.num <= NUM_BOUND as int,
        ;
    }
}

/// Beyond the upper-face crossing the coordinate has left the slab upward.
proof fn lemma_beyond_hi(o: int, d: int, bnd: int, tm: Rat, t: Rat)
    requires
        d > 0,
        tm.num == bnd - o,
        tm.den == d,
        t.den > 0,
        rlt(tm, t),
    ensures
        at_num(o, d, t) > bnd * t.den,
{
    assert(o * t.den + t.num * d > bnd * t.den) by (nonlinear_arith)
        requires
            (bnd - o) * t.den < t.num * d,
    ;
}

/// Beyond the lower-face crossing the coordinate has left the slab downward.
proof fn lemma_beyond_lo(o: int, d: int, bnd: int, tm: Rat, t: Rat)
    requires
        d < 0,
        tm.num == o - bnd,
        tm.den == -d,
        t.den > 0,
        rlt(tm, t),
    ensures
        at_num(o, d, t) < bnd * t.den,
{
    assert(o * t.den + t.num * d < bnd * t.den) by (nonlinear_arith)
        requires
            (o - bnd) * t.den < t.num * (-d),
    ;
}

/// Two boxes sharing a rational coordinate on one axis overlap on that axis.
proof fn lemma_overlap_axis(amn: int, amx: int, bmn: int, bmx: int, q: int, den: int)
    requires
        den > 0,
        amn * den <= q <= amx * den,
        bmn * den <= q <= bmx * den,
    ensures
        amx >= bmn,
        amn <= bmx,
{
    assert(amx >= bmn && amn <= bmx) by (nonlinear_arith)
        requires
            den > 0,
            bmn * den <= amx * den,
            amn * den <= bmx * den,
    ;
}

/// The corners of the voxel at lattice coordinates `(ci, cj, ck)` are the
/// slab faces those coordinates name.
proof fn lemma_vox_corners(g: Grid, ci: int, cj: int, ck: int)
    requires
        grid_ok(g),
        0 <= ci < g.nx,
        0 <= cj < g.ny,
        0 <= ck < g.nz,
    ensures
        ({
            let v = ci + cj * g.nx + ck * (g.nx * g.ny);
            &&& 0 <= v < g.boxes@.len()
            &&& g.boxes@[v].aabb.min.x == slab_lo(g.origin.x as int, g.box_size.x as int, ci)
            &&& g.boxes@[v].aabb.max.x == slab_hi(g.origin.x as int, g.box_size.x as int, ci)
            &&& g.boxes@[v].aabb.min.y == slab_lo(g.origin.y as int, g.box_size.y as int, cj)
            &&& g.boxes@[v].aabb.max.y == slab_hi(g.origin.y as int, g.box_size.y as int, cj)
            &&& g.boxes@[v].aabb.min.z == slab_lo(g.origin.z as int, g.box_size.z as int, ck)
            &&& g.boxes@[v].aabb.max.z == slab_hi(g.origin.z as int, g.box_size.z as int, ck)
        }),
{
    let nx = g.nx as int;
    let ny = g.ny as int;
    let nz = g.nz as int;
    let v = ci + cj * nx + ck * (nx * ny);
    assert(0 <= v < nx * ny * nz && v == (cj + ck * ny) * nx + ci
        && 0 <= ci + cj * nx < nx * ny && nx * ny > 0) by (nonlinear_arith)
        requires
            0 <= ci < nx,
            0 <= cj < ny,
            0 <= ck < nz,
            v == ci + cj * nx + ck * (nx * ny),
    ;
    vstd::arithmetic::div_mod::lemma_fundamental_div_mod_converse(v, nx, cj + ck * ny, ci);
    vstd::arithmetic::div_mod::lemma_fundamental_div_mod_converse(cj + ck * ny, ny, ck, cj);
    vstd::arithmetic::div_mod::lemma_fundamental_div_mod_converse(v, nx * ny, ck, ci + cj * nx);
    assert(v % nx == ci && (v / nx) % ny == cj && v / (nx * ny) == ck);
    assert(g.boxes@[v].aabb == vox_box_of(g.origin, g.box_size, nx, ny, v));
    // The slab faces stay inside the world bound, so the stored corners
    // carry them exactly.
    assert({
        &&& -COORD_BOUND <= slab_lo(g.origin.x as int, g.box_size.x as int, ci)
        &&& slab_lo(g.origin.x as int, g.box_size.x as int, ci)
            <= slab_hi(g.origin.x as int, g.box_size.x as int, ci)
        &&& slab_hi(g.origin.x as int, g.box_size.x as int, ci) <= COORD_BOUND
        &&& -COORD_BOUND <= slab_lo(g.origin.y as int, g.box_size.y as int, cj)
        &&& slab_lo(g.origin.y as int, g.box_size.y as int, cj)
            <= slab_hi(g.origin.y as int, g.box_size.y as int, cj)
        &&& slab_hi(g.origin.y as int, g.box_size.y as int, cj) <= COORD_BOUND
        &&& -COORD_BOUND <= slab_lo(g.origin.z as int, g.box_size.z as int, ck)
        &&& slab_lo(g.origin.z as int, g.box_size.z as int, ck)
            <= slab_hi(g.origin.z as int, g.box_size.z as int, ck)
        &&& slab_hi(g.origin.z as int, g.box_size.z as int, ck) <= COORD_BOUND
    }) by (nonlinear_arith)
        requires
            0 <= ci < nx,
            0 <= cj < ny,
            0 <= ck < nz,
            g.box_size.x >= 1,
            g.box_size.y >= 1,
            g.box_size.z >= 1,
            nx * g.box_size.x == g.aabb.max.x - g.aabb.min.x,
            ny * g.box_size.y == g.aabb.max.y - g.aabb.min.y,
            nz * g.box_size.z == g.aabb.max.z - g.aabb.min.z,
            g.origin == g.aabb.min,
            aabb_wf(g.aabb),
            nx == g.nx as int,
            ny == g.ny as int,
            nz == g.nz as int,
    ;
}

/// If a hit's point lies in a voxel whose bucket was scanned, the scan's
/// outcome bounds the hit from below: the scan either returned something at
/// least as near, or its empty-handed interval already ended before the hit.
proof fn lemma_scanned(g: Grid, r: Ray, lo: Rat, hi: Rat, ci: int, cj: int, ck: int,
    cls: Rat, res: Option<HitRecord>, i: int)
    requires
        grid_ok(g),
        ray_wf(r),
        lo.den > 0,
        hi.den > 0,
        rat_wf(cls),
        rle(cls, hi),
        0 <= ci < g.nx,
        0 <= cj < g.ny,
        0 <= ck < g.nz,
        0 <= i < g.objects@.len(),
        prim_hit_t(g.objects@[i], r, lo, hi) is Some,
        in_voxel_at(g, r, prim_hit_t(g.objects@[i], r, lo, hi)->Some_0, ci, cj, ck),
        bucket_scan_post(g.objects@,
            g.boxes@[ci + cj * g.nx + ck * (g.nx * g.ny)].objects@, r, lo, cls, res),
    ensures
        res matches Some(rec) ==> rle(rec.t, prim_hit_t(g.objects@[i], r, lo, hi)->Some_0),
        res is None ==> rle(cls, prim_hit_t(g.objects@[i], r, lo, hi)->Some_0),
{
    broadcast use vstd::std_specs::vec::axiom_spec_len;

    let u = prim_hit_t(g.objects@[i], r, lo, hi)->Some_0;
    lemma_prim_hit_t_props(g.objects@[i], r, lo, hi);
    assert(g.objects.len() == g.objects@.len());
    lemma_vox_corners(g, ci, cj, ck);
    let v = ci + cj * g.nx + ck * (g.nx * g.ny);
    let vox = g.boxes@[v].aabb;
    let pb = prim_aabb(g.objects@[i]);
    lemma_overlap_axis(pb.min.x as int, pb.max.x as int, vox.min.x as int, vox.max.x as int,
        at_num(r.orig.x as int, r.dir.x as int, u), u.den as int);
    lemma_overlap_axis(pb.min.y as int, pb.max.y as int, vox.min.y as int, vox.max.y as int,
        at_num(r.orig.y as int, r.dir.y as int, u), u.den as int);
    lemma_overlap_axis(pb.min.z as int, pb.max.z as int, vox.min.z as int, vox.max.z as int,
        at_num(r.orig.z as int, r.dir.z as int, u), u.den as int);
    assert(overlap(pb, vox));
    let idxs = g.boxes@[v].objects@;
    assert(bucket_exact(idxs, g.objects@, vox));
    assert((i as usize) as int == i);
    assert(overlap(prim_aabb(g.objects@[(i as usize) as int]), vox));
    assert(idxs.contains(i as usize));
    let j = choose|j: int| 0 <= j < idxs.len() && idxs[j] == i as usize;
    assert(idxs[j] as int == i);
    assert(g.objects@[idxs[j] as int] == g.objects@[i]);
    lemma_prim_restrict(g.objects@[i], r, lo, hi, cls);
    match res {
        Some(rec) => {
            if rlt(u, cls) {
                assert(prim_hit_t(g.objects@[idxs[j] as int], r, lo, cls) == Some(u));
                assert(rle(rec.t, u));
            } else {
                lemma_rlt_rle_trans(rec.t, cls, u);
            }
        },
        None => {
            if rlt(u, cls) {
                assert(prim_hit_t(g.objects@[idxs[j] as int], r, lo, cls) == Some(u));
                assert(false);
            }
        },
    }
}


/// Per-axis consequences of the grid invariant: the voxel edge fits the
/// world, the lattice ends exactly on the outer box's far corner, and each
/// per-axis count is at most the number of voxels.
proof fn lemma_extent(g: Grid)
    requires
        grid_ok(g),
    ensures
        g.box_size.x <= 2 * COORD_BOUND,
        g.box_size.y <= 2 * COORD_BOUND,
        g.box_size.z <= 2 * COORD_BOUND,
        g.origin.x as int + (g.nx as int) * (g.box_size.x as int) == g.aabb.max.x as int,
        g.origin.y as int + (g.ny as int) * (g.box_size.y as int) == g.aabb.max.y as int,
        g.origin.z as int + (g.nz as int) * (g.box_size.z as int) == g.aabb.max.z as int,
        g.nx <= g.boxes@.len(),
        g.ny <= g.boxes@.len(),
        g.nz <= g.boxes@.len(),
{
    assert(g.nx <= g.nx * g.ny * g.nz && g.ny <= g.nx * g.ny * g.nz
        && g.nz <= g.nx * g.ny * g.nz) by (nonlinear_arith)
        requires
            g.nx >= 1,
            g.ny >= 1,
            g.nz >= 1,
    ;
    assert(g.box_size.x <= 2 * COORD_BOUND && g.box_size.y <= 2 * COORD_BOUND
        && g.box_size.z <= 2 * COORD_BOUND) by (nonlinear_arith)
        requires
            g.nx >= 1,
            g.ny >= 1,
            g.nz >= 1,
            g.box_size.x >= 1,
            g.box_size.y >= 1,
            g.box_size.z >= 1,
            g.nx * g.box_size.x == g.aabb.max.x - g.aabb.min.x,
            g.ny * g.box_size.y == g.aabb.max.y - g.aabb.min.y,
            g.nz * g.box_size.z == g.aabb.max.z - g.aabb.min.z,
            aabb_wf(g.aabb),
    ;
}

/// The walk's remaining headroom along one axis: how many voxels are left in
/// the travel direction.  A parallel axis never steps and has none.
pub open spec fn pot(d: int, c: int, n: int) -> int {
    if d > 0 {
        n - c
    } else if d < 0 {
        c + 1
    } else {
        0
    }
}

/// A finite boundary crossing lies strictly below the parallel-axis
/// sentinel.
proof fn lemma_tm_finite(o: int, d: int, gmin: int, s: int, c: int, n: int, tm: Rat, big: Rat)
    requires
        d != 0,
        tm_ok(o, d, gmin, s, c, tm),
        tm.den > 0,
        0 <= c < n,
        1 <= s,
        -COORD_BOUND <= o <= COORD_BOUND,
        -COORD_BOUND <= gmin,
        gmin + n * s <= COORD_BOUND,
        big.num == NUM_BOUND,
        big.den == 1,
    ensures
        rlt(tm, big),
{
    if d > 0 {
        assert(tm.num * big.den < big.num * tm.den) by (nonlinear_arith)
            requires
                tm.num == gmin + (c + 1) * s - o,
                tm.den > 0,
                big.num == NUM_BOUND as int,
                big.den == 1,
                0 <= c < n,
                1 <= s,
                -COORD_BOUND <= o,
                gmin + n * s <= COORD_BOUND,
        ;
    } else {
        assert(tm.num * big.den < big.num * tm.den) by (nonlinear_arith)
            requires
                tm.num == o - (gmin + c * s),
                tm.den > 0,
                big.num == NUM_BOUND as int,
                big.den == 1,
                0 <= c,
                1 <= s,
                o <= COORD_BOUND,
                -COORD_BOUND <= gmin,
        ;
    }
}

/// Crossing a shared face lands exactly on the next voxel's near face, so
/// the crossing parameter lies in the next voxel's slab.
proof fn lemma_land_on_face(o: int, d: int, gmin: int, s: int, c0: int, tm: Rat, cnew: int)
    requires
        d != 0,
        s >= 1,
        tm.den > 0,
        tm_ok(o, d, gmin, s, c0, tm),
        d > 0 ==> cnew == c0 + 1,
        d < 0 ==> cnew == c0 - 1,
    ensures
        at_in_range(o, d, tm, slab_lo(gmin, s, cnew), slab_hi(gmin, s, cnew)),
{
    if d > 0 {
        assert(slab_lo(gmin, s, cnew) * tm.den <= o * tm.den + tm.num * d
            && o * tm.den + tm.num * d <= slab_hi(gmin, s, cnew) * tm.den)
            by (nonlinear_arith)
            requires
                tm.den == d,
                d > 0,
                s >= 1,
                cnew == c0 + 1,
                tm.num == gmin + (c0 + 1) * s - o,
        ;
    } else {
        assert(slab_lo(gmin, s, cnew) * tm.den <= o * tm.den + tm.num * d
            && o * tm.den + tm.num * d <= slab_hi(gmin, s, cnew) * tm.den)
            by (nonlinear_arith)
            requires
                tm.den == -d,
                d < 0,
                s >= 1,
                cnew == c0 - 1,
                tm.num == o - (gmin + c0 * s),
        ;
    }
}

/// A walk that steps off the lattice leaves through the grid's outer face,
/// and no point of any primitive's box lies beyond that crossing: every hit
/// parameter is at or before it.
proof fn lemma_exit_outer(o: int, d: int, gmin: int, s: int, c0: int, n: int, gmax: int,
    tm: Rat, u: Rat, pmn: int, pmx: int)
    requires
        d != 0,
        tm.den > 0,
        u.den > 0,
        s >= 1,
        tm_ok(o, d, gmin, s, c0, tm),
        0 <= c0 < n,
        d > 0 ==> c0 == n - 1,
        d < 0 ==> c0 == 0,
        gmin + n * s == gmax,
        at_in_range(o, d, u, pmn, pmx),
        gmin <= pmn,
        pmx <= gmax,
    ensures
        rle(u, tm),
{
    if rlt(tm, u) {
        if d > 0 {
            lemma_beyond_hi(o, d, gmax, tm, u);
            assert(false) by (nonlinear_arith)
                requires
                    u.den > 0,
                    o * u.den + u.num * d > gmax * u.den,
                    o * u.den + u.num * d <= pmx * u.den,
                    pmx <= gmax,
            ;
        } else {
            lemma_beyond_lo(o, d, gmin, tm, u);
            assert(false) by (nonlinear_arith)
                requires
                    u.den > 0,
                    o * u.den + u.num * d < gmin * u.den,
                    pmn * u.den <= o * u.den + u.num * d,
                    gmin <= pmn,
            ;
        }
    }
}

/// Any full-interval hit between the covered parameter and this voxel's
/// exit parameter is bounded below by what the voxel's scan produced.
proof fn lemma_cover_step(g: Grid, r: Ray, lo: Rat, hi: Rat, ci: int, cj: int, ck: int,
    tc: Rat, tmx: Rat, tmy: Rat, tmz: Rat, texit: Rat, cls0: Rat, cls: Rat,
    res: Option<HitRecord>, ii: int)
    requires
        grid_ok(g),
        ray_wf(r),
        lo.den > 0,
        hi.den > 0,
        rat_wf(tc),
        rat_wf(tmx),
        rat_wf(tmy),
        rat_wf(tmz),
        rat_wf(texit),
        rat_wf(cls0),
        rle(cls0, hi),
        0 <= ci < g.nx,
        0 <= cj < g.ny,
        0 <= ck < g.nz,
        in_voxel_at(g, r, tc, ci, cj, ck),
        tm_ok(r.orig.x as int, r.dir.x as int, g.origin.x as int, g.box_size.x as int, ci, tmx),
        tm_ok(r.orig.y as int, r.dir.y as int, g.origin.y as int, g.box_size.y as int, cj, tmy),
        tm_ok(r.orig.z as int, r.dir.z as int, g.origin.z as int, g.box_size.z as int, ck, tmz),
        rle(texit, tmx),
        rle(texit, tmy),
        rle(texit, tmz),
        bucket_scan_post(g.objects@,
            g.boxes@[ci + cj * g.nx + ck * (g.nx * g.ny)].objects@, r, lo, cls0, res),
        cls == (match res {
            Some(rec) => rec.t,
            None => cls0,
        }),
        0 <= ii < g.objects@.len(),
        prim_hit_t(g.objects@[ii], r, lo, hi) is Some,
        rle(tc, prim_hit_t(g.objects@[ii], r, lo, hi)->Some_0),
        rle(prim_hit_t(g.objects@[ii], r, lo, hi)->Some_0, texit),
    ensures
        rle(cls, prim_hit_t(g.objects@[ii], r, lo, hi)->Some_0),
{
    let u = prim_hit_t(g.objects@[ii], r, lo, hi)->Some_0;
    lemma_prim_hit_t_props(g.objects@[ii], r, lo, hi);
    lemma_rle_trans(u, texit, tmx);
    lemma_rle_trans(u, texit, tmy);
    lemma_rle_trans(u, texit, tmz);
    lemma_axis_span(r.orig.x as int, r.dir.x as int, g.origin.x as int, g.box_size.x as int,
        ci, tc, tmx, u);
    lemma_axis_span(r.orig.y as int, r.dir.y as int, g.origin.y as int, g.box_size.y as int,
        cj, tc, tmy, u);
    lemma_axis_span(r.orig.z as int, r.dir.z as int, g.origin.z as int, g.box_size.z as int,
        ck, tc, tmz, u);
    assert(in_voxel_at(g, r, u, ci, cj, ck));
    lemma_scanned(g, r, lo, hi, ci, cj, ck, cls0, res, ii);
}

/// When the walk ends, the nearest-hit contract follows from the running
/// lower bound on every hit.
proof fn lemma_walk_done(objs: Seq<Primitive>, r: Ray, lo: Rat, hi: Rat, cls: Rat,
    acc: Option<HitRecord>)
    requires
        objs_wf(objs),
        ray_wf(r),
        lo.den > 0,
        hi.den > 0,
        range_none_before(objs, r, lo, hi, 0, objs.len() as int, cls),
        match acc {
            Some(rec) => cls == rec.t && t_tight(rec.t) && rlt(lo, rec.t) && rlt(rec.t, hi)
                && range_hit_at(objs, r, lo, hi, 0, objs.len() as int, rec),
            None => cls == hi,
        },
    ensures
        nearest_hit_in(objs, r, lo, hi, 0, objs.len() as int, acc),
{
    if acc is None {
        assert forall|i: int| 0 <= i < objs.len()
            implies #[trigger] prim_hit_t(objs[i], r, lo, hi) is None by {
            if prim_hit_t(objs[i], r, lo, hi) is Some {
                lemma_prim_hit_t_props(objs[i], r, lo, hi);
            }
        }
    }
}

impl Grid {
    /// The linear index of the voxel with lattice coordinates `(i, j, k)`.
    pub fn xyz_to_index(&self, i: usize, j: usize, k: usize) -> (idx: usize)
        requires
            grid_ok(*self),
            i < self.nx,
            j < self.ny,
            k < self.nz,
        ensures
            idx == i + j * self.nx + k * (self.nx * self.ny),
            idx < self.boxes@.len(),
    {
        proof {
            assert(0 <= j * self.nx && 0 <= k * (self.nx * self.ny)
                && self.nx * self.ny <= self.nx * self.ny * self.nz
                && i + j * self.nx + k * (self.nx * self.ny)
                    < self.nx * self.ny * self.nz) by (nonlinear_arith)
                requires
                    i < self.nx,
                    j < self.ny,
                    k < self.nz,
                    self.nx >= 1,
                    self.ny >= 1,
                    self.nz >= 1,
            ;
        }
        i + j * self.nx + k * (self.nx * self.ny)
    }

    /// The lattice coordinates of the voxel holding an integer point, or
    /// `None` when the point lies outside the grid.  A point on a face
    /// shared by two voxels belongs to the farther voxel along that axis,
    /// and a point on the grid's far face to the last voxel.
    pub fn point_to_voxel(&self, p: &Vec3i) -> (res: Option<(usize, usize, usize)>)
        requires
            grid_ok(*self),
        ensures
            res.is_some() == crate::aabb::contains_int(self.aabb, *p),
            res matches Some(c) ==> {
                &&& c.0 < self.nx && c.1 < self.ny && c.2 < self.nz
                &&& slab_lo(self.origin.x as int, self.box_size.x as int, c.0 as int)
                    <= p.x as int
                &&& p.x as int <= slab_hi(self.origin.x as int, self.box_size.x as int,
                    c.0 as int)
                &&& slab_lo(self.origin.y as int, self.box_size.y as int, c.1 as int)
                    <= p.y as int
                &&& p.y as int <= slab_hi(self.origin.y as int, self.box_size.y as int,
                    c.1 as int)
                &&& slab_lo(self.origin.z as int, self.box_size.z as int, c.2 as int)
                    <= p.z as int
                &&& p.z as int <= slab_hi(self.origin.z as int, self.box_size.z as int,
                    c.2 as int)
            },
    {
        if !self.aabb.point_inside(p) {
            return None;
        }
        proof {
            lemma_extent(*self);
        }
        let cx = voxel_coord(p.x, 1, self.origin.x, self.box_size.x, self.nx);
        let cy = voxel_coord(p.y, 1, self.origin.y, self.box_size.y, self.ny);
        let cz = voxel_coord(p.z, 1, self.origin.z, self.box_size.z, self.nz);
        Some((cx, cy, cz))
    }

    /// The voxel the walk starts in, together with the parameter from which
    /// the walk covers the ray, or `None` when the ray misses the grid's
    /// outer box and with it every primitive.
    fn start_voxel(&self, r: &Ray, lo: &Rat, hi: &Rat)
        -> (res: Option<(usize, usize, usize, Ghost<Rat>)>)
        requires
            grid_ok(*self),
            ray_wf(*r),
            rat_wf(*lo),
            rat_wf(*hi),
            lo.num >= 0,
        ensures
            res is None ==> range_misses(self.objects@, *r, *lo, *hi, 0,
                self.objects@.len() as int),
            res matches Some(st) ==> {
                &&& st.0 < self.nx && st.1 < self.ny && st.2 < self.nz
                &&& rat_wf(st.3@)
                &&& in_voxel_at(*self, *r, st.3@, st.0 as int, st.1 as int, st.2 as int)
                &&& forall|i: int| 0 <= i < self.objects@.len()
                    && #[trigger] prim_hit_t(self.objects@[i], *r, *lo, *hi) is Some
                    ==> rle(st.3@, prim_hit_t(self.objects@[i], *r, *lo, *hi)->Some_0)
            },
    {
        proof {
            lemma_extent(*self);
        }
        let ghost objs = self.objects@;
        if self.aabb.point_inside(&r.orig) {
            let cx = voxel_coord(r.orig.x, 1, self.origin.x, self.box_size.x, self.nx);
            let cy = voxel_coord(r.orig.y, 1, self.origin.y, self.box_size.y, self.ny);
            let cz = voxel_coord(r.orig.z, 1, self.origin.z, self.box_size.z, self.nz);
            let ghost t0 = Rat { num: 0, den: 1 };
            proof {
                assert(at_in_range(r.orig.x as int, r.dir.x as int, t0,
                    slab_lo(self.origin.x as int, self.box_size.x as int, cx as int),
                    slab_hi(self.origin.x as int, self.box_size.x as int, cx as int)))
                    by (nonlinear_arith)
                    requires
                        t0.num == 0,
                        t0.den == 1,
                        slab_lo(self.origin.x as int, self.box_size.x as int, cx as int) * 1
                            <= r.orig.x as int,
                        r.orig.x as int
                            <= slab_hi(self.origin.x as int, self.box_size.x as int,
                                cx as int) * 1,
                ;
                assert(at_in_range(r.orig.y as int, r.dir.y as int, t0,
                    slab_lo(self.origin.y as int, self.box_size.y as int, cy as int),
                    slab_hi(self.origin.y as int, self.box_size.y as int, cy as int)))
                    by (nonlinear_arith)
                    requires
                        t0.num == 0,
                        t0.den == 1,
                        slab_lo(self.origin.y as int, self.box_size.y as int, cy as int) * 1
                            <= r.orig.y as int,
                        r.orig.y as int
                            <= slab_hi(self.origin.y as int, self.box_size.y as int,
                                cy as int) * 1,
                ;
                assert(at_in_range(r.orig.z as int, r.dir.z as int, t0,
                    slab_lo(self.origin.z as int, self.box_size.z as int, cz as int),
                    slab_hi(self.origin.z as int, self.box_size.z as int, cz as int)))
                    by (nonlinear_arith)
                    requires
                        t0.num == 0,
                        t0.den == 1,
                        slab_lo(self.origin.z as int, self.box_size.z as int, cz as int) * 1
                            <= r.orig.z as int,
                        r.orig.z as int
                            <= slab_hi(self.origin.z as int, self.box_size.z as int,
                                cz as int) * 1,
                ;
                assert(in_voxel_at(*self, *r, t0, cx as int, cy as int, cz as int));
                assert forall|i: int| 0 <= i < objs.len()
                    && #[trigger] prim_hit_t(objs[i], *r, *lo, *hi) is Some
                    implies rle(t0, prim_hit_t(objs[i], *r, *lo, *hi)->Some_0) by {
                    let u = prim_hit_t(objs[i], *r, *lo, *hi)->Some_0;
                    lemma_prim_hit_t_props(objs[i], *r, *lo, *hi);
                    assert(0 * u.den <= u.num * 1) by (nonlinear_arith)
                        requires
                            lo.num >= 0,
                            lo.den > 0,
                            u.den > 0,
                            lo.num * u.den < u.num * lo.den,
                    ;
                }
            }
            Some((cx, cy, cz, Ghost(t0)))
        } else {
            match self.aabb.hit(r, *lo, *hi) {
                None => {
                    proof {
                        assert forall|i: int| 0 <= i < objs.len()
                            implies #[trigger] prim_hit_t(objs[i], *r, *lo, *hi) is None by {
                            lemma_box_miss(self.aabb, *r, *lo, *hi, objs[i]);
                        }
                    }
                    None
                },
                Some((enter, _, _)) => {
                    proof {
                        lemma_enter_point_in_box(self.aabb, *r, *lo, *hi);
                        crate::num::lemma_mul_bound(r.orig.x as int, enter.den as int,
                            COORD_BOUND as int, DEN_BOUND as int);
                        crate::num::lemma_mul_bound(r.orig.y as int, enter.den as int,
                            COORD_BOUND as int, DEN_BOUND as int);
                        crate::num::lemma_mul_bound(r.orig.z as int, enter.den as int,
                            COORD_BOUND as int, DEN_BOUND as int);
                        crate::num::lemma_mul_bound(enter.num as int, r.dir.x as int,
                            NUM_BOUND as int, COORD_BOUND as int);
                        crate::num::lemma_mul_bound(enter.num as int, r.dir.y as int,
                            NUM_BOUND as int, COORD_BOUND as int);
                        crate::num::lemma_mul_bound(enter.num as int, r.dir.z as int,
                            NUM_BOUND as int, COORD_BOUND as int);
                    }
                    let px = r.orig.x * enter.den + enter.num * r.dir.x;
                    let py = r.orig.y * enter.den + enter.num * r.dir.y;
                    let pz = r.orig.z * enter.den + enter.num * r.dir.z;
                    let cx = voxel_coord(px, enter.den, self.origin.x, self.box_size.x,
                        self.nx);
                    let cy = voxel_coord(py, enter.den, self.origin.y, self.box_size.y,
                        self.ny);
                    let cz = voxel_coord(pz, enter.den, self.origin.z, self.box_size.z,
                        self.nz);
                    proof {
                        assert(in_voxel_at(*self, *r, enter, cx as int, cy as int, cz as int));
                        assert forall|i: int| 0 <= i < objs.len()
                            && #[trigger] prim_hit_t(objs[i], *r, *lo, *hi) is Some
                            implies rle(enter, prim_hit_t(objs[i], *r, *lo, *hi)->Some_0) by {
                            let u = prim_hit_t(objs[i], *r, *lo, *hi)->Some_0;
                            lemma_prim_hit_t_props(objs[i], *r, *lo, *hi);
                            let pb = prim_aabb(objs[i]);
                            lemma_at_range_mono(r.orig.x as int, r.dir.x as int, u,
                                pb.min.x as int, pb.max.x as int,
                                self.aabb.min.x as int, self.aabb.max.x as int);
                            lemma_at_range_mono(r.orig.y as int, r.dir.y as int, u,
                                pb.min.y as int, pb.max.y as int,
                                self.aabb.min.y as int, self.aabb.max.y as int);
                            lemma_at_range_mono(r.orig.z as int, r.dir.z as int, u,
                                pb.min.z as int, pb.max.z as int,
                                self.aabb.min.z as int, self.aabb.max.z as int);
                            lemma_slab_complete(self.aabb, *r, *lo, *hi, u);
                        }
                    }
                    Some((cx, cy, cz, Ghost(enter)))
                },
            }
        }
    }

    /// Walk the grid along the ray and return the nearest hit of the whole
    /// scene within `(lo, hi)` -- the same contract as the plain scan: a
    /// returned record is a genuine hit that no primitive beats, and `None`
    /// means no primitive hits at all.  The walk takes at most
    /// `nx + ny + nz` steps.
    #[verifier::rlimit(100)]
    pub fn hit(&self, r: &Ray, lo: &Rat, hi: &Rat, data: &mut Data) -> (res: Option<HitRecord>)
        requires
            grid_ok(*self),
            ray_wf(*r),
            rat_wf(*lo),
            rat_wf(*hi),
            lo.num >= 0,
        ensures
            nearest_hit_in(self.objects@, *r, *lo, *hi, 0, self.objects@.len() as int, res),
            final(data).traversal_steps
                <= old(data).traversal_steps + self.nx + self.ny + self.nz,
    {
        let ghost objs = self.objects@;
        let ghost len = self.objects@.len() as int;
        proof {
            lemma_extent(*self);
        }
        let start = self.start_voxel(r, lo, hi);
        let (sx, sy, sz, tg): (usize, usize, usize, Ghost<Rat>) = match start {
            None => {
                return None;
            },
            Some(st) => st,
        };
        let mut ci: i64 = sx as i64;
        let mut cj: i64 = sy as i64;
        let mut ck: i64 = sz as i64;
        let ghost mut tcov: Rat = tg@;
        let mut tmx = self.axis_tmax(r.orig.x, r.dir.x, self.origin.x, self.box_size.x, ci);
        let mut tmy = self.axis_tmax(r.orig.y, r.dir.y, self.origin.y, self.box_size.y, cj);
        let mut tmz = self.axis_tmax(r.orig.z, r.dir.z, self.origin.z, self.box_size.z, ck);
        let bound = self.nx + self.ny + self.nz;
        let mut steps: usize = 0;
        let mut acc: Option<HitRecord> = None;
        let mut closest: Rat = *hi;
        while steps < bound
            invariant
                grid_ok(*self),
                ray_wf(*r),
                rat_wf(*lo),
                rat_wf(*hi),
                lo.num >= 0,
                objs == self.objects@,
                len == self.objects@.len() as int,
                bound == self.nx + self.ny + self.nz,
                self.nx <= 0x1000_0000,
                self.ny <= 0x1000_0000,
                self.nz <= 0x1000_0000,
                steps <= bound,
                data.traversal_steps <= old(data).traversal_steps + steps,
                self.box_size.x <= 2 * COORD_BOUND,
                self.box_size.y <= 2 * COORD_BOUND,
                self.box_size.z <= 2 * COORD_BOUND,
                self.origin.x as int + (self.nx as int) * (self.box_size.x as int)
                    == self.aabb.max.x as int,
                self.origin.y as int + (self.ny as int) * (self.box_size.y as int)
                    == self.aabb.max.y as int,
                self.origin.z as int + (self.nz as int) * (self.box_size.z as int)
                    == self.aabb.max.z as int,
                -1 <= ci <= self.nx as i64,
                -1 <= cj <= self.ny as i64,
                -1 <= ck <= self.nz as i64,
                r.dir.x == 0 ==> 0 <= ci < self.nx as i64,
                r.dir.y == 0 ==> 0 <= cj < self.ny as i64,
                r.dir.z == 0 ==> 0 <= ck < self.nz as i64,
                rat_wf(tmx),
                rat_wf(tmy),
                rat_wf(tmz),
                tm_ok(r.orig.x as int, r.dir.x as int, self.origin.x as int,
                    self.box_size.x as int, ci as int, tmx),
                tm_ok(r.orig.y as int, r.dir.y as int, self.origin.y as int,
                    self.box_size.y as int, cj as int, tmy),
                tm_ok(r.orig.z as int, r.dir.z as int, self.origin.z as int,
                    self.box_size.z as int, ck as int, tmz),
                rat_wf(tcov),
                (0 <= ci < self.nx as i64 && 0 <= cj < self.ny as i64
                        && 0 <= ck < self.nz as i64)
                    ==> in_voxel_at(*self, *r, tcov, ci as int, cj as int, ck as int),
                steps as int + pot(r.dir.x as int, ci as int, self.nx as int)
                    + pot(r.dir.y as int, cj as int, self.ny as int)
                    + pot(r.dir.z as int, ck as int, self.nz as int) <= bound as int,
                pot(r.dir.x as int, ci as int, self.nx as int) >= 0,
                pot(r.dir.y as int, cj as int, self.ny as int) >= 0,
                pot(r.dir.z as int, ck as int, self.nz as int) >= 0,
                rat_wf(closest),
                rle(closest, *hi),
                match acc {
                    Some(rec) => {
                        &&& closest == rec.t
                        &&& t_tight(rec.t)
                        &&& rlt(*lo, rec.t)
                        &&& rlt(rec.t, *hi)
                        &&& range_hit_at(objs, *r, *lo, *hi, 0, len, rec)
                    },
                    None => closest == *hi,
                },
                forall|i: int| 0 <= i < len
                    && #[trigger] prim_hit_t(objs[i], *r, *lo, *hi) is Some
                    ==> rle(tcov, prim_hit_t(objs[i], *r, *lo, *hi)->Some_0)
                        || rle(closest, prim_hit_t(objs[i], *r, *lo, *hi)->Some_0),
                !(0 <= ci < self.nx as i64 && 0 <= cj < self.ny as i64
                        && 0 <= ck < self.nz as i64)
                    ==> range_none_before(objs, *r, *lo, *hi, 0, len, closest),
            decreases bound - steps,
        {
            if ci < 0 || cj < 0 || ck < 0 || ci >= self.nx as i64 || cj >= self.ny as i64
                || ck >= self.nz as i64 {
                proof {
                    lemma_walk_done(objs, *r, *lo, *hi, closest, acc);
                }
                return acc;
            }
            data.add_traversal_step();
            let i = ci as usize;
            let j = cj as usize;
            let k = ck as usize;
            let idx = self.xyz_to_index(i, j, k);
            let ghost bucket = self.boxes@[idx as int].objects@;
            proof {
                assert(bucket_exact(bucket, objs, self.boxes@[idx as int].aabb));
                assert forall|q: int| 0 <= q < bucket.len()
                    implies #[trigger] bucket[q] < objs.len() by {
                    assert(bucket.contains(bucket[q]));
                }
            }
            let ghost closest0 = closest;
            let found = hit_bucket(&self.objects, &self.boxes[idx].objects, r, lo, &closest,
                data);
            if let Some(rec) = found {
                proof {
                    let wj = choose|wj: int| 0 <= wj < bucket.len()
                        && #[trigger] prim_hit_t(objs[bucket[wj] as int], *r, *lo, closest0)
                            == Some(rec.t)
                        && rec == prim_hit_rec(objs[bucket[wj] as int], *r, rec.t);
                    let wi = bucket[wj] as int;
                    lemma_prim_restrict(objs[wi], *r, *lo, *hi, closest0);
                    assert(prim_hit_t(objs[wi], *r, *lo, *hi) == Some(rec.t));
                    lemma_rlt_rle_trans(rec.t, closest0, *hi);
                }
                closest = rec.t;
                acc = Some(rec);
            }
            proof {
                assert(rle(closest, closest0));
            }
            // The exit parameter of this voxel, and the axis whose boundary
            // sets it.
            let mut axis: u8 = 0;
            let mut t_axis = tmx;
            if tmy.lt(&t_axis) {
                axis = 1;
                t_axis = tmy;
            }
            let ghost t1 = t_axis;
            proof {
                assert(rle(t1, tmx) && rle(t1, tmy));
            }
            if tmz.lt(&t_axis) {
                axis = 2;
                t_axis = tmz;
            }
            proof {
                if rlt(tmz, t1) {
                    lemma_rlt_rle_trans(tmz, t1, tmx);
                    lemma_rlt_rle_trans(tmz, t1, tmy);
                }
                assert(rle(t_axis, tmx) && rle(t_axis, tmy) && rle(t_axis, tmz));
                lemma_tc_le_tm(r.orig.x as int, r.dir.x as int, self.origin.x as int,
                    self.box_size.x as int, ci as int, tcov, tmx);
                lemma_tc_le_tm(r.orig.y as int, r.dir.y as int, self.origin.y as int,
                    self.box_size.y as int, cj as int, tcov, tmy);
                lemma_tc_le_tm(r.orig.z as int, r.dir.z as int, self.origin.z as int,
                    self.box_size.z as int, ck as int, tcov, tmz);
                assert(rle(tcov, t_axis));
            }
            // Leave as soon as the accepted hit lies within this voxel's
            // parametric span: nothing nearer can appear in a later voxel.
            if acc.is_some() {
                if closest.le(&t_axis) {
                    proof {
                        assert forall|ii: int| 0 <= ii < len
                            && #[trigger] prim_hit_t(objs[ii], *r, *lo, *hi) is Some
                            implies rle(closest, prim_hit_t(objs[ii], *r, *lo, *hi)->Some_0)
                        by {
                            let u = prim_hit_t(objs[ii], *r, *lo, *hi)->Some_0;
                            lemma_prim_hit_t_props(objs[ii], *r, *lo, *hi);
                            if !rle(closest, u) {
                                if rle(closest0, u) {
                                    lemma_rle_trans(closest, closest0, u);
                                } else {
                                    assert(rle(tcov, u));
                                    lemma_rlt_rle_trans(u, closest, t_axis);
                                    lemma_cover_step(*self, *r, *lo, *hi, ci as int, cj as int,
                                        ck as int, tcov, tmx, tmy, tmz, t_axis, closest0,
                                        closest, found, ii);
                                }
                            }
                        }
                        lemma_walk_done(objs, *r, *lo, *hi, closest, acc);
                    }
                    return acc;
                }
            }
            let ghost tc0 = tcov;
            proof {
                // Completeness carries to the next voxel: any hit at or
                // before this voxel's exit was scanned here.
                assert forall|ii: int| 0 <= ii < len
                    && #[trigger] prim_hit_t(objs[ii], *r, *lo, *hi) is Some
                    implies rle(t_axis, prim_hit_t(objs[ii], *r, *lo, *hi)->Some_0)
                        || rle(closest, prim_hit_t(objs[ii], *r, *lo, *hi)->Some_0) by {
                    let u = prim_hit_t(objs[ii], *r, *lo, *hi)->Some_0;
                    lemma_prim_hit_t_props(objs[ii], *r, *lo, *hi);
                    if !rle(closest, u) && !rle(t_axis, u) {
                        if rle(closest0, u) {
                            lemma_rle_trans(closest, closest0, u);
                        } else {
                            assert(rle(tc0, u));
                            lemma_cover_step(*self, *r, *lo, *hi, ci as int, cj as int,
                                ck as int, tc0, tmx, tmy, tmz, t_axis, closest0, closest,
                                found, ii);
                        }
                    }
                }
                tcov = t_axis;
            }
            if axis == 0 {
                proof {
                    if r.dir.x == 0 {
                        if r.dir.y != 0 {
                            lemma_tm_finite(r.orig.y as int, r.dir.y as int,
                                self.origin.y as int, self.box_size.y as int, cj as int,
                                self.ny as int, tmy, tmx);
                        }
                        if r.dir.z != 0 {
                            lemma_tm_finite(r.orig.z as int, r.dir.z as int,
                                self.origin.z as int, self.box_size.z as int, ck as int,
                                self.nz as int, tmz, tmx);
                        }
                        assert(false);
                    }
                }
                let ghost ci0 = ci as int;
                if r.dir.x > 0 {
                    ci = ci + 1;
                } else {
                    ci = ci - 1;
                }
                proof {
                    assert(-NUM_BOUND <= tmx.num + self.box_size.x <= NUM_BOUND)
                        by (nonlinear_arith)
                        requires
                            tm_ok(r.orig.x as int, r.dir.x as int, self.origin.x as int,
                                self.box_size.x as int, ci0, tmx),
                            r.dir.x != 0,
                            0 <= ci0 < self.nx as int,
                            1 <= self.box_size.x <= 2 * COORD_BOUND,
                            -COORD_BOUND <= r.orig.x <= COORD_BOUND,
                            -COORD_BOUND <= self.origin.x,
                            self.origin.x as int
                                + (self.nx as int) * (self.box_size.x as int)
                                <= COORD_BOUND,
                            NUM_BOUND == 0x40_0000_0000_0000_0000,
                    ;
                }
                tmx = Rat::new(tmx.num + self.box_size.x, tmx.den);
                proof {
                    assert(tm_ok(r.orig.x as int, r.dir.x as int, self.origin.x as int,
                        self.box_size.x as int, ci as int, tmx)) by (nonlinear_arith)
                        requires
                            r.dir.x != 0,
                            tm_ok(r.orig.x as int, r.dir.x as int, self.origin.x as int,
                                self.box_size.x as int, ci0, t_axis),
                            t_axis == (Rat { num: (tmx.num - self.box_size.x) as i128,
                                den: tmx.den }),
                            r.dir.x > 0 ==> ci as int == ci0 + 1,
                            r.dir.x <= 0 ==> ci as int == ci0 - 1,
                            -NUM_BOUND <= tmx.num <= NUM_BOUND,
                            -NUM_BOUND <= tmx.num - self.box_size.x <= NUM_BOUND,
                    ;
                    if 0 <= ci && (ci as int) < self.nx as int {
                        lemma_land_on_face(r.orig.x as int, r.dir.x as int,
                            self.origin.x as int, self.box_size.x as int, ci0, t_axis,
                            ci as int);
                        lemma_axis_span(r.orig.y as int, r.dir.y as int, self.origin.y as int,
                            self.box_size.y as int, cj as int, tc0, tmy, t_axis);
                        lemma_axis_span(r.orig.z as int, r.dir.z as int, self.origin.z as int,
                            self.box_size.z as int, ck as int, tc0, tmz, t_axis);
                        assert(in_voxel_at(*self, *r, tcov, ci as int, cj as int, ck as int));
                    } else {
                        assert forall|ii: int| 0 <= ii < len
                            && #[trigger] prim_hit_t(objs[ii], *r, *lo, *hi) is Some
                            implies rle(closest, prim_hit_t(objs[ii], *r, *lo, *hi)->Some_0)
                        by {
                            let u = prim_hit_t(objs[ii], *r, *lo, *hi)->Some_0;
                            lemma_prim_hit_t_props(objs[ii], *r, *lo, *hi);
                            if !rle(closest, u) {
                                assert(rle(t_axis, u));
                                if rle(u, t_axis) {
                                    if rle(closest0, u) {
                                        lemma_rle_trans(closest, closest0, u);
                                    } else {
                                        lemma_cover_step(*self, *r, *lo, *hi, ci0, cj as int,
                                            ck as int, tc0, t_axis, tmy, tmz, t_axis,
                                            closest0, closest, found, ii);
                                    }
                                } else {
                                    let pb = prim_aabb(objs[ii]);
                                    lemma_exit_outer(r.orig.x as int, r.dir.x as int,
                                        self.origin.x as int, self.box_size.x as int, ci0,
                                        self.nx as int, self.aabb.max.x as int, t_axis, u,
                                        pb.min.x as int, pb.max.x as int);
                                }
                            }
                        }
                    }
                }
            } else if axis == 1 {
                proof {
                    if r.dir.y == 0 {
                        if r.dir.x != 0 {
                            lemma_tm_finite(r.orig.x as int, r.dir.x as int,
                                self.origin.x as int, self.box_size.x as int, ci as int,
                                self.nx as int, tmx, tmy);
                            lemma_rlt_trans(tmy, tmx, tmy);
                        }
                        assert(false);
                    }
                }
                let ghost cj0 = cj as int;
                if r.dir.y > 0 {
                    cj = cj + 1;
                } else {
                    cj = cj - 1;
                }
                proof {
                    assert(-NUM_BOUND <= tmy.num + self.box_size.y <= NUM_BOUND)
                        by (nonlinear_arith)
                        requires
                            tm_ok(r.orig.y as int, r.dir.y as int, self.origin.y as int,
                                self.box_size.y as int, cj0, tmy),
                            r.dir.y != 0,
                            0 <= cj0 < self.ny as int,
                            1 <= self.box_size.y <= 2 * COORD_BOUND,
                            -COORD_BOUND <= r.orig.y <= COORD_BOUND,
                            -COORD_BOUND <= self.origin.y,
                            self.origin.y as int
                                + (self.ny as int) * (self.box_size.y as int)
                                <= COORD_BOUND,
                            NUM_BOUND == 0x40_0000_0000_0000_0000,
                    ;
                }
                tmy = Rat::new(tmy.num + self.box_size.y, tmy.den);
                proof {
                    assert(tm_ok(r.orig.y as int, r.dir.y as int, self.origin.y as int,
                        self.box_size.y as int, cj as int, tmy)) by (nonlinear_arith)
                        requires
                            r.dir.y != 0,
                            tm_ok(r.orig.y as int, r.dir.y as int, self.origin.y as int,
                                self.box_size.y as int, cj0, t_axis),
                            t_axis == (Rat { num: (tmy.num - self.box_size.y) as i128,
                                den: tmy.den }),
                            r.dir.y > 0 ==> cj as int == cj0 + 1,
                            r.dir.y <= 0 ==> cj as int == cj0 - 1,
                            -NUM_BOUND <= tmy.num <= NUM_BOUND,
                            -NUM_BOUND <= tmy.num - self.box_size.y <= NUM_BOUND,
                    ;
                    if 0 <= cj && (cj as int) < self.ny as int {
                        lemma_land_on_face(r.orig.y as int, r.dir.y as int,
                            self.origin.y as int, self.box_size.y as int, cj0, t_axis,
                            cj as int);
                        lemma_axis_span(r.orig.x as int, r.dir.x as int, self.origin.x as int,
                            self.box_size.x as int, ci as int, tc0, tmx, t_axis);
                        lemma_axis_span(r.orig.z as int, r.dir.z as int, self.origin.z as int,
                            self.box_size.z as int, ck as int, tc0, tmz, t_axis);
                        assert(in_voxel_at(*self, *r, tcov, ci as int, cj as int, ck as int));
                    } else {
                        assert forall|ii: int| 0 <= ii < len
                            && #[trigger] prim_hit_t(objs[ii], *r, *lo, *hi) is Some
                            implies rle(closest, prim_hit_t(objs[ii], *r, *lo, *hi)->Some_0)
                        by {
                            let u = prim_hit_t(objs[ii], *r, *lo, *hi)->Some_0;
                            lemma_prim_hit_t_props(objs[ii], *r, *lo, *hi);
                            if !rle(closest, u) {
                                assert(rle(t_axis, u));
                                if rle(u, t_axis) {
                                    if rle(closest0, u) {
                                        lemma_rle_trans(closest, closest0, u);
                                    } else {
                                        lemma_cover_step(*self, *r, *lo, *hi, ci as int, cj0,
                                            ck as int, tc0, tmx, t_axis, tmz, t_axis,
                                            closest0, closest, found, ii);
                                    }
                                } else {
                                    let pb = prim_aabb(objs[ii]);
                                    lemma_exit_outer(r.orig.y as int, r.dir.y as int,
                                        self.origin.y as int, self.box_size.y as int, cj0,
                                        self.ny as int, self.aabb.max.y as int, t_axis, u,
                                        pb.min.y as int, pb.max.y as int);
                                }
                            }
                        }
                    }
                }
            } else {
                proof {
                    if r.dir.z == 0 {
                        if rlt(tmy, tmx) {
                            if r.dir.y != 0 {
                                lemma_tm_finite(r.orig.y as int, r.dir.y as int,
                                    self.origin.y as int, self.box_size.y as int, cj as int,
                                    self.ny as int, tmy, tmz);
                                lemma_rlt_trans(tmz, tmy, tmz);
                            }
                        } else {
                            if r.dir.x != 0 {
                                lemma_tm_finite(r.orig.x as int, r.dir.x as int,
                                    self.origin.x as int, self.box_size.x as int, ci as int,
                                    self.nx as int, tmx, tmz);
                                lemma_rlt_trans(tmz, tmx, tmz);
                            }
                        }
                        assert(false);
                    }
                }
                let ghost ck0 = ck as int;
                if r.dir.z > 0 {
                    ck = ck + 1;
                } else {
                    ck = ck - 1;
                }
                proof {
                    assert(-NUM_BOUND <= tmz.num + self.box_size.z <= NUM_BOUND)
                        by (nonlinear_arith)
                        requires
                            tm_ok(r.orig.z as int, r.dir.z as int, self.origin.z as int,
                                self.box_size.z as int, ck0, tmz),
                            r.dir.z != 0,
                            0 <= ck0 < self.nz as int,
                            1 <= self.box_size.z <= 2 * COORD_BOUND,
                            -COORD_BOUND <= r.orig.z <= COORD_BOUND,
                            -COORD_BOUND <= self.origin.z,
                            self.origin.z as int
                                + (self.nz as int) * (self.box_size.z as int)
                                <= COORD_BOUND,
                            NUM_BOUND == 0x40_0000_0000_0000_0000,
                    ;
                }
                tmz = Rat::new(tmz.num + self.box_size.z, tmz.den);
                proof {
                    assert(tm_ok(r.orig.z as int, r.dir.z as int, self.origin.z as int,
                        self.box_size.z as int, ck as int, tmz)) by (nonlinear_arith)
                        requires
                            r.dir.z != 0,
                            tm_ok(r.orig.z as int, r.dir.z as int, self.origin.z as int,
                                self.box_size.z as int, ck0, t_axis),
                            t_axis == (Rat { num: (tmz.num - self.box_size.z) as i128,
                                den: tmz.den }),
                            r.dir.z > 0 ==> ck as int == ck0 + 1,
                            r.dir.z <= 0 ==> ck as int == ck0 - 1,
                            -NUM_BOUND <= tmz.num <= NUM_BOUND,
                            -NUM_BOUND <= tmz.num - self.box_size.z <= NUM_BOUND,
                    ;
                    if 0 <= ck && (ck as int) < self.nz as int {
                        lemma_land_on_face(r.orig.z as int, r.dir.z as int,
                            self.origin.z as int, self.box_size.z as int, ck0, t_axis,
                            ck as int);
                        lemma_axis_span(r.orig.x as int, r.dir.x as int, self.origin.x as int,
                            self.box_size.x as int, ci as int, tc0, tmx, t_axis);
                        lemma_axis_span(r.orig.y as int, r.dir.y as int, self.origin.y as int,
                            self.box_size.y as int, cj as int, tc0, tmy, t_axis);
                        assert(in_voxel_at(*self, *r, tcov, ci as int, cj as int, ck as int));
                    } else {
                        assert forall|ii: int| 0 <= ii < len
                            && #[trigger] prim_hit_t(objs[ii], *r, *lo, *hi) is Some
                            implies rle(closest, prim_hit_t(objs[ii], *r, *lo, *hi)->Some_0)
                        by {
                            let u = prim_hit_t(objs[ii], *r, *lo, *hi)->Some_0;
                            lemma_prim_hit_t_props(objs[ii], *r, *lo, *hi);
                            if !rle(closest, u) {
                                assert(rle(t_axis, u));
                                if rle(u, t_axis) {
                                    if rle(closest0, u) {
                                        lemma_rle_trans(closest, closest0, u);
                                    } else {
                                        lemma_cover_step(*self, *r, *lo, *hi, ci as int,
                                            cj as int, ck0, tc0, tmx, tmy, t_axis, t_axis,
                                            closest0, closest, found, ii);
                                    }
                                } else {
                                    let pb = prim_aabb(objs[ii]);
                                    lemma_exit_outer(r.orig.z as int, r.dir.z as int,
                                        self.origin.z as int, self.box_size.z as int, ck0,
                                        self.nz as int, self.aabb.max.z as int, t_axis, u,
                                        pb.min.z as int, pb.max.z as int);
                                }
                            }
                        }
                    }
                }
            }
            steps = steps + 1;
        }
        proof {
            // The step budget ran out, so every travel direction has walked
            // its whole span and the walk stands outside the lattice.
            assert(pot(r.dir.x as int, ci as int, self.nx as int) == 0
                && pot(r.dir.y as int, cj as int, self.ny as int) == 0
                && pot(r.dir.z as int, ck as int, self.nz as int) == 0);
            assert(!(0 <= ci < self.nx as i64 && 0 <= cj < self.ny as i64
                && 0 <= ck < self.nz as i64));
            lemma_walk_done(objs, *r, *lo, *hi, closest, acc);
        }
        acc
    }


    /// The parameter at which the ray crosses the next voxel boundary on
    /// one axis, measured from voxel coordinate `c`: the crossing of the
    /// upper voxel face when the component is positive, of the lower face
    /// when it is negative, and a never-reached sentinel when it is zero.
    fn axis_tmax(&self, o: i128, d: i128, origin: i128, s: i128, c: i64) -> (t: Rat)
        requires
            -COORD_BOUND <= o <= COORD_BOUND,
            -COORD_BOUND <= d <= COORD_BOUND,
            -COORD_BOUND <= origin <= COORD_BOUND,
            1 <= s <= 2 * COORD_BOUND,
            0 <= c <= 0x1000_0000,
        ensures
            rat_wf(t),
            t.num <= NUM_BOUND,
            d > 0 ==> t == (Rat { num: (origin + (c as i128 + 1) * s - o) as i128, den: d }),
            d < 0 ==> t == (Rat { num: (o - (origin + (c as i128) * s)) as i128, den: (-d) as i128 }),
            d == 0 ==> t == (Rat { num: NUM_BOUND, den: 1i128 }),
            tm_ok(o as int, d as int, origin as int, s as int, c as int, t),
    {
        proof {
            crate::num::lemma_mul_bound(c as int + 1, s as int, 0x1000_0001,
                2 * COORD_BOUND as int);
            crate::num::lemma_mul_bound(c as int, s as int, 0x1000_0001,
                2 * COORD_BOUND as int);
        }
        if d > 0 {
            let boundary = origin + (c as i128 + 1) * s;
            Rat::new(boundary - o, d)
        } else if d < 0 {
            let boundary = origin + (c as i128) * s;
            Rat::new(o - boundary, -d)
        } else {
            big_rat()
        }
    }
}

impl GridBox {
    /// A voxel box with no primitives listed yet.
    pub fn new(min: Vec3i, max: Vec3i) -> (b: GridBox)
        ensures
            b.aabb.min == min && b.aabb.max == max,
            b.objects@.len() == 0,
    {
        GridBox { aabb: AABB::new(min, max), objects: Vec::new() }
    }

    /// List the primitive index iff its box overlaps the voxel.
    pub fn try_add(&mut self, object: &AABB, array_pos: usize)
        ensures
            final(self).aabb == old(self).aabb,
            final(self).objects@ == if overlap(*object, old(self).aabb) {
                old(self).objects@.push(array_pos)
            } else {
                old(self).objects@
            },
    {
        if object.inside(&self.aabb) {
            self.objects.push(array_pos);
        }
    }
}

} // verus!
