//! The bounding volume hierarchy: a flat array of nodes over a contiguous
//! range of primitives each.  Traversal probes the children's boxes,
//! descends into the nearer child first, and revisits the farther child
//! only when it could still hold a closer hit.  The result is proved to be
//! the nearest hit of the node's whole range — the same contract as the
//! plain scan.

use vstd::prelude::*;
use crate::aabb::{AABB, aabb_wf};
use crate::data::Data;
use crate::hit::{HitRecord, Primitive, prim_aabb, prim_hit_t, prim_wf, t_tight,
    lemma_prim_restrict, lemma_prim_hit_t_props};
use crate::hittable_list::{hit_range, nearest_hit_in, objs_wf, range_hit_at, range_misses,
    range_none_before};
use crate::rat::{Rat, rat_wf, rle, rlt, lemma_rle_trans, lemma_rle_rlt_trans,
    lemma_rlt_rle_trans, lemma_rlt_trans};
use crate::ray::{Ray, ray_wf, at_in_range};
use crate::options::{AlgorithmOptions, Options};
use crate::slab::{box_enter, box_exit, lemma_slab_complete, slab_hits};
use crate::vec3i::COORD_BOUND;

verus! {

/// One node: a box over the primitive range `[first, first + count)`; an
/// internal node splits that range between two children stored at lower
/// indices.
#[derive(Clone, Copy, Debug)]
pub struct BvhNode {
    pub aabb: AABB,
    pub is_leaf: bool,
    pub left: usize,
    pub right: usize,
    pub first: usize,
    pub count: usize,
}

/// `inner` lies entirely within `outer`.
pub open spec fn box_subset(inner: AABB, outer: AABB) -> bool {
    &&& outer.min.x <= inner.min.x && inner.max.x <= outer.max.x
    &&& outer.min.y <= inner.min.y && inner.max.y <= outer.max.y
    &&& outer.min.z <= inner.min.z && inner.max.z <= outer.max.z
}

/// Soundness of one node: its box bounds every primitive of its range, and
/// an internal node's children exactly split its range, with the node's box
/// exactly the union of its children's boxes.
pub open spec fn node_ok(nodes: Seq<BvhNode>, objs: Seq<Primitive>, n: int) -> bool {
    let nd = nodes[n];
    &&& aabb_wf(nd.aabb)
    &&& nd.first + nd.count <= objs.len()
    &&& (forall|i: int| nd.first <= i < nd.first + nd.count
            ==> box_subset(prim_aabb(#[trigger] objs[i]), nd.aabb))
    &&& !nd.is_leaf ==> {
        &&& nd.left < n
        &&& nd.right < n
        &&& nodes[nd.left as int].first == nd.first
        &&& nodes[nd.left as int].count + nodes[nd.right as int].count == nd.count
        &&& nodes[nd.right as int].first == nd.first + nodes[nd.left as int].count
        &&& nd.aabb == crate::aabb::union_spec(nodes[nd.left as int].aabb,
                nodes[nd.right as int].aabb)
    }
}

/// The whole tree is sound.
pub open spec fn bvh_wf(nodes: Seq<BvhNode>, objs: Seq<Primitive>) -> bool {
    forall|n: int| 0 <= n < nodes.len() ==> node_ok(nodes, objs, n)
}

/// A primitive whose box the slab test rejects over `(lo, hi)` cannot hit
/// inside that interval.
pub proof fn lemma_box_miss(b: AABB, r: Ray, lo: Rat, hi: Rat, p: Primitive)
    requires
        aabb_wf(b),
        ray_wf(r),
        prim_wf(p),
        lo.den > 0,
        hi.den > 0,
        box_subset(prim_aabb(p), b),
        !slab_hits(b, r, lo, hi),
    ensures
        prim_hit_t(p, r, lo, hi) is None,
{
    if prim_hit_t(p, r, lo, hi) is Some {
        let t = prim_hit_t(p, r, lo, hi)->Some_0;
        lemma_prim_hit_t_props(p, r, lo, hi);
        let pb = prim_aabb(p);
        lemma_at_range_mono(r.orig.x as int, r.dir.x as int, t,
            pb.min.x as int, pb.max.x as int, b.min.x as int, b.max.x as int);
        lemma_at_range_mono(r.orig.y as int, r.dir.y as int, t,
            pb.min.y as int, pb.max.y as int, b.min.y as int, b.max.y as int);
        lemma_at_range_mono(r.orig.z as int, r.dir.z as int, t,
            pb.min.z as int, pb.max.z as int, b.min.z as int, b.max.z as int);
        lemma_slab_complete(b, r, lo, hi, t);
        lemma_fold_den_pos(b, r, lo, hi);
        lemma_rle_trans(box_enter(b, r, lo), t, box_exit(b, r, hi));
    }
}

/// Widening the slab keeps a coordinate inside it.
pub proof fn lemma_at_range_mono(o: int, d: int, t: Rat, mn1: int, mx1: int, mn2: int, mx2: int)
    requires
        t.den > 0,
        mn2 <= mn1,
        mx1 <= mx2,
        at_in_range(o, d, t, mn1, mx1),
    ensures
        at_in_range(o, d, t, mn2, mx2),
{
    assert(mn2 * t.den <= mn1 * t.den && mx1 * t.den <= mx2 * t.den) by (nonlinear_arith)
        requires
            t.den > 0,
            mn2 <= mn1,
            mx1 <= mx2,
    ;
}

/// The clipped slab bounds keep a positive denominator.
proof fn lemma_fold_den_pos(b: AABB, r: Ray, lo: Rat, hi: Rat)
    requires
        ray_wf(r),
        lo.den > 0,
        hi.den > 0,
    ensures
        box_enter(b, r, lo).den > 0,
        box_exit(b, r, hi).den > 0,
{
    let e1 = crate::slab::step_enter(lo, r.orig.x as int, r.dir.x as int,
        b.min.x as int, b.max.x as int);
    let e2 = crate::slab::step_enter(e1, r.orig.y as int, r.dir.y as int,
        b.min.y as int, b.max.y as int);
    assert(e1.den > 0);
    assert(e2.den > 0);
    let x1 = crate::slab::step_exit(hi, r.orig.x as int, r.dir.x as int,
        b.min.x as int, b.max.x as int);
    let x2 = crate::slab::step_exit(x1, r.orig.y as int, r.dir.y as int,
        b.min.y as int, b.max.y as int);
    assert(x1.den > 0);
    assert(x2.den > 0);
}

/// The bounding volume hierarchy over its own (reordered) copy of the
/// primitives.
pub struct Bvh {
    pub objects: Vec<Primitive>,
    pub nodes: Vec<BvhNode>,
}

impl Bvh {
    /// The index of the root node.
    pub fn root(&self) -> (n: usize)
        requires
            self.nodes@.len() > 0,
        ensures
            n == self.nodes@.len() - 1,
    {
        self.nodes.len() - 1
    }

    /// Traverse the subtree under node `n`: the nearest hit of the node's
    /// whole primitive range over `(lo, hi)`.
    pub fn hit_node(&self, n: usize, r: &Ray, lo: &Rat, hi: &Rat, data: &mut Data)
        -> (res: Option<HitRecord>)
        requires
            bvh_wf(self.nodes@, self.objects@),
            objs_wf(self.objects@),
            n < self.nodes@.len(),
            ray_wf(*r),
            rat_wf(*lo),
            rat_wf(*hi),
        ensures
            nearest_hit_in(self.objects@, *r, *lo, *hi,
                self.nodes@[n as int].first as int,
                self.nodes@[n as int].first + self.nodes@[n as int].count, res),
        decreases n,
    {
        let node = self.nodes[n];
        let ghost objs = self.objects@;
        let ghost a = node.first as int;
        let ghost b = node.first + node.count;
        proof {
            assert(node_ok(self.nodes@, objs, n as int));
        }
        if node.is_leaf {
            return hit_range(&self.objects, r, lo, hi, node.first, node.count, data);
        }
        let ghost ln = self.nodes@[node.left as int];
        let ghost rn = self.nodes@[node.right as int];
        proof {
            assert(node_ok(self.nodes@, objs, node.left as int));
            assert(node_ok(self.nodes@, objs, node.right as int));
        }
        data.add_intersection_check();
        let lhit = self.nodes[node.left].aabb.hit(r, *lo, *hi);
        data.add_intersection_check();
        let rhit = self.nodes[node.right].aabb.hit(r, *lo, *hi);
        match (lhit, rhit) {
            (None, None) => {
                proof {
                    assert forall|i: int| a <= i < b
                        implies #[trigger] prim_hit_t(objs[i], *r, *lo, *hi) is None by {
                        if i < a + ln.count {
                            lemma_box_miss(ln.aabb, *r, *lo, *hi, objs[i]);
                        } else {
                            lemma_box_miss(rn.aabb, *r, *lo, *hi, objs[i]);
                        }
                    }
                }
                None
            },
            (Some(_), None) => {
                let res = self.hit_node(node.left, r, lo, hi, data);
                proof {
                    assert forall|i: int| a + ln.count <= i < b
                        implies #[trigger] prim_hit_t(objs[i], *r, *lo, *hi) is None by {
                        lemma_box_miss(rn.aabb, *r, *lo, *hi, objs[i]);
                    }
                }
                res
            },
            (None, Some(_)) => {
                let res = self.hit_node(node.right, r, lo, hi, data);
                proof {
                    assert forall|i: int| a <= i < a + ln.count
                        implies #[trigger] prim_hit_t(objs[i], *r, *lo, *hi) is None by {
                        lemma_box_miss(ln.aabb, *r, *lo, *hi, objs[i]);
                    }
                }
                res
            },
            (Some(lt), Some(rt)) => {
                let l_enter = lt.0;
                let r_enter = rt.0;
                let (near, far, far_enter): (usize, usize, Rat) = if !l_enter.lt(&r_enter) {
                    (node.right, node.left, l_enter)
                } else {
                    (node.left, node.right, r_enter)
                };
                let ghost na = self.nodes@[near as int].first as int;
                let ghost nb = na + self.nodes@[near as int].count;
                let ghost fa = self.nodes@[far as int].first as int;
                let ghost fb = fa + self.nodes@[far as int].count;
                let ghost fbox = self.nodes@[far as int].aabb;
                proof {
                    assert(far_enter == box_enter(fbox, *r, *lo));
                }
                let res_near = self.hit_node(near, r, lo, hi, data);
                match res_near {
                    Some(rec) => {
                        if far_enter.lt(&rec.t) {
                            data.add_overlapping_aabb();
                            let res_far = self.hit_node(far, r, lo, &rec.t, data);
                            proof {
                                lemma_combine_far(objs, *r, *lo, *hi, fa, fb, rec, res_far);
                            }
                            match res_far {
                                Some(rec2) => {
                                    proof {
                                        assert forall|i: int| a <= i < b
                                            && #[trigger] prim_hit_t(objs[i], *r, *lo, *hi)
                                                is Some
                                            implies rle(rec2.t,
                                                prim_hit_t(objs[i], *r, *lo, *hi)->Some_0) by {
                                            let u = prim_hit_t(objs[i], *r, *lo, *hi)->Some_0;
                                            lemma_prim_hit_t_props(objs[i], *r, *lo, *hi);
                                            if na <= i < nb {
                                                assert(rle(rec.t, u));
                                                lemma_rlt_rle_trans(rec2.t, rec.t, u);
                                            }
                                        }
                                        lemma_rlt_trans(rec2.t, rec.t, *hi);
                                    }
                                    Some(rec2)
                                },
                                None => {
                                    proof {
                                        assert(range_none_before(objs, *r, *lo, *hi, fa, fb,
                                            rec.t));
                                    }
                                    Some(rec)
                                },
                            }
                        } else {
                            proof {
                                // The far child begins no closer than the
                                // accepted hit, so nothing in it can win.
                                assert forall|i: int| fa <= i < fb
                                    && #[trigger] prim_hit_t(objs[i], *r, *lo, *hi) is Some
                                    implies rle(rec.t,
                                        prim_hit_t(objs[i], *r, *lo, *hi)->Some_0) by {
                                    let u = prim_hit_t(objs[i], *r, *lo, *hi)->Some_0;
                                    lemma_prim_hit_t_props(objs[i], *r, *lo, *hi);
                                    let pb = prim_aabb(objs[i]);
                                    lemma_at_range_mono(r.orig.x as int, r.dir.x as int, u,
                                        pb.min.x as int, pb.max.x as int,
                                        fbox.min.x as int, fbox.max.x as int);
                                    lemma_at_range_mono(r.orig.y as int, r.dir.y as int, u,
                                        pb.min.y as int, pb.max.y as int,
                                        fbox.min.y as int, fbox.max.y as int);
                                    lemma_at_range_mono(r.orig.z as int, r.dir.z as int, u,
                                        pb.min.z as int, pb.max.z as int,
                                        fbox.min.z as int, fbox.max.z as int);
                                    lemma_slab_complete(fbox, *r, *lo, *hi, u);
                                    lemma_fold_den_pos(fbox, *r, *lo, *hi);
                                    lemma_rle_trans(rec.t, far_enter, u);
                                }
                            }
                            Some(rec)
                        }
                    },
                    None => {
                        let res = self.hit_node(far, r, lo, hi, data);
                        res
                    },
                }
            },
        }
    }
}

/// The sort key of a primitive on one axis: the matching component of
/// three times its centroid.
pub open spec fn ckey(p: Primitive, axis: u8) -> int {
    if axis == 0 {
        crate::hit::prim_centroid3(p).x as int
    } else if axis == 1 {
        crate::hit::prim_centroid3(p).y as int
    } else {
        crate::hit::prim_centroid3(p).z as int
    }
}

/// The centroid key, executably.
fn centroid_key(p: &Primitive, axis: u8) -> (k: i128)
    requires
        prim_wf(*p),
    ensures
        k == ckey(*p, axis),
{
    let c = p.centroid3();
    if axis == 0 {
        c.x
    } else if axis == 1 {
        c.y
    } else {
        c.z
    }
}

/// Sort the primitives with indices `[first, first + count)` by centroid
/// key on `axis`, touching nothing else; the range keeps the same
/// primitives (as a multiset) and the whole array keeps its multiset.
fn sort_range(objects: &mut Vec<Primitive>, first: usize, count: usize, axis: u8)
    requires
        objs_wf(old(objects)@),
        first + count <= old(objects)@.len(),
    ensures
        final(objects)@.len() == old(objects)@.len(),
        forall|j: int| 0 <= j < final(objects)@.len() && !(first <= j < first + count)
            ==> final(objects)@[j] == old(objects)@[j],
        final(objects)@.to_multiset() == old(objects)@.to_multiset(),
        objs_wf(final(objects)@),
        forall|i: int, j: int| #![trigger final(objects)@[i], final(objects)@[j]]
            first <= i <= j < first + count
            ==> ckey(final(objects)@[i], axis) <= ckey(final(objects)@[j], axis),
{
    let ghost orig = objects@;
    let n = objects.len();
    // Extract the range.
    let mut scratch: Vec<Primitive> = Vec::new();
    let mut j: usize = 0;
    while j < count
        invariant
            objects@ == orig,
            objs_wf(orig),
            first + count <= orig.len(),
            n == orig.len(),
            j <= count,
            scratch@ == orig.subrange(first as int, first + j),
        decreases count - j,
    {
        let p = objects[first + j];
        scratch.push(p);
        proof {
            assert(scratch@ =~= orig.subrange(first as int, first + j + 1));
        }
        j = j + 1;
    }
    // Selection sort into a fresh vector.
    let mut out: Vec<Primitive> = Vec::new();
    proof {
        broadcast use vstd::multiset::group_multiset_axioms;

        out@.to_multiset_ensures();
        vstd::multiset::lemma_multiset_empty_len(out@.to_multiset());
        assert(out@.to_multiset().add(scratch@.to_multiset()) =~= scratch@.to_multiset());
    }
    while scratch.len() > 0
        invariant
            objs_wf(orig),
            forall|i: int| 0 <= i < scratch@.len() ==> prim_wf(#[trigger] scratch@[i]),
            forall|i: int| 0 <= i < out@.len() ==> prim_wf(#[trigger] out@[i]),
            out@.to_multiset().add(scratch@.to_multiset())
                == orig.subrange(first as int, first + count).to_multiset(),
            out@.len() + scratch@.len() == count,
            forall|i: int, j: int| #![trigger out@[i], out@[j]] 0 <= i <= j < out@.len()
                ==> ckey(out@[i], axis) <= ckey(out@[j], axis),
            forall|i: int, j: int| #![trigger out@[i], scratch@[j]]
                0 <= i < out@.len() && 0 <= j < scratch@.len()
                ==> ckey(out@[i], axis) <= ckey(scratch@[j], axis),
        decreases scratch.len(),
    {
        let mut m: usize = 0;
        let mut i: usize = 1;
        while i < scratch.len()
            invariant
                forall|q: int| 0 <= q < scratch@.len() ==> prim_wf(#[trigger] scratch@[q]),
                m < scratch@.len(),
                i <= scratch@.len(),
                forall|q: int| 0 <= q < i
                    ==> ckey(scratch@[m as int], axis) <= ckey(#[trigger] scratch@[q], axis),
            decreases scratch.len() - i,
        {
            if centroid_key(&scratch[i], axis).lt(&centroid_key(&scratch[m], axis)) {
                m = i;
            }
            i = i + 1;
        }
        let ghost pre_scratch = scratch@;
        let ghost pre_out = out@;
        let x = scratch.remove(m);
        out.push(x);
        proof {
            broadcast use vstd::multiset::group_multiset_axioms;

            vstd::seq_lib::to_multiset_remove(pre_scratch, m as int);
            pre_out.to_multiset_ensures();
            pre_scratch.to_multiset_ensures();
            assert(pre_scratch.contains(x));
            assert(pre_scratch.to_multiset().count(x) > 0);
            assert(out@.to_multiset().add(scratch@.to_multiset())
                =~= pre_out.to_multiset().add(pre_scratch.to_multiset()));
        }
    }
    proof {
        broadcast use vstd::multiset::group_multiset_axioms;

        scratch@.to_multiset_ensures();
        vstd::multiset::lemma_multiset_empty_len(scratch@.to_multiset());
        assert(out@.to_multiset() =~= out@.to_multiset().add(scratch@.to_multiset()));
    }
    // Write the sorted range back.
    let mut j2: usize = 0;
    while j2 < count
        invariant
            objects@.len() == orig.len(),
            n == orig.len(),
            first + count <= orig.len(),
            j2 <= count,
            out@.len() == count,
            objs_wf(orig),
            forall|i: int| 0 <= i < count ==> prim_wf(#[trigger] out@[i]),
            forall|i: int, j: int| #![trigger out@[i], out@[j]] 0 <= i <= j < count
                ==> ckey(out@[i], axis) <= ckey(out@[j], axis),
            out@.to_multiset() == orig.subrange(first as int, first + count).to_multiset(),
            forall|q: int| 0 <= q < orig.len() && !(first <= q < first + j2)
                ==> objects@[q] == orig[q],
            forall|q: int| first <= q < first + j2 ==> objects@[q] == out@[q - first],
        decreases count - j2,
    {
        let v = out[j2];
        objects.set(first + j2, v);
        j2 = j2 + 1;
    }
    proof {
        // The final array is the old one with the range replaced by a
        // permutation of itself, so the whole multiset is unchanged.
        let fin = objects@;
        let pre = orig.subrange(0, first as int);
        let mid_old = orig.subrange(first as int, first + count);
        let post = orig.subrange(first + count, orig.len() as int);
        assert(orig =~= pre + mid_old + post);
        assert(fin =~= pre + out@ + post);
        vstd::seq_lib::lemma_multiset_commutative(pre, mid_old);
        vstd::seq_lib::lemma_multiset_commutative(pre, out@);
        vstd::seq_lib::lemma_multiset_commutative(pre + mid_old, post);
        vstd::seq_lib::lemma_multiset_commutative(pre + out@, post);
        assert(fin.to_multiset() =~= orig.to_multiset());
        assert forall|i: int| 0 <= i < fin.len() implies prim_wf(#[trigger] fin[i]) by {
            if first <= i < first + count {
                assert(fin[i] == out@[i - first]);
            }
        }
    }
}

/// The primitives of the range `[first, first + count)` are sorted by their
/// centroid key on `axis`.
pub open spec fn range_sorted(s: Seq<Primitive>, first: int, count: int, axis: u8) -> bool {
    forall|i: int, j: int| #![trigger s[i], s[j]] first <= i <= j < first + count
        ==> ckey(s[i], axis) <= ckey(s[j], axis)
}

/// The union of the boxes of the primitives with indices
/// `[first, first + count)`.
pub open spec fn range_box(s: Seq<Primitive>, first: int, count: int) -> AABB
    decreases count,
{
    if count <= 1 {
        prim_aabb(s[first])
    } else {
        crate::aabb::union_spec(range_box(s, first, count - 1),
            prim_aabb(s[first + count - 1]))
    }
}

/// Twice the surface area of a box, the comparator the heuristic uses.
pub open spec fn sa(b: AABB) -> int {
    2 * ((b.max.x - b.min.x) * (b.max.y - b.min.y)
        + (b.max.x - b.min.x) * (b.max.z - b.min.z)
        + (b.max.y - b.min.y) * (b.max.z - b.min.z))
}

/// The surface-area cost of splitting the range at `k`: each side's box
/// area times the primitives it covers.
pub open spec fn split_cost(s: Seq<Primitive>, first: int, k: int, count: int) -> int {
    sa(range_box(s, first, k)) * k + sa(range_box(s, first + k, count - k)) * (count - k)
}

/// The surface-area cost of keeping the range as one leaf.
pub open spec fn leaf_cost(s: Seq<Primitive>, first: int, count: int) -> int {
    sa(range_box(s, first, count)) * count
}

/// The box around the primitives with indices `[first, first + count)`.
fn range_aabb(objects: &Vec<Primitive>, first: usize, count: usize) -> (bb: AABB)
    requires
        objs_wf(objects@),
        count >= 1,
        first + count <= objects@.len(),
    ensures
        aabb_wf(bb),
        bb == range_box(objects@, first as int, count as int),
        forall|i: int| first <= i < first + count
            ==> box_subset(prim_aabb(#[trigger] objects@[i]), bb),
{
    let n = objects.len();
    let mut bb = objects[first].to_aabb();
    let mut j: usize = 1;
    while j < count
        invariant
            objs_wf(objects@),
            n == objects@.len(),
            first + count <= objects@.len(),
            1 <= j <= count,
            aabb_wf(bb),
            bb == range_box(objects@, first as int, j as int),
            forall|i: int| first <= i < first + j
                ==> box_subset(prim_aabb(#[trigger] objects@[i]), bb),
        decreases count - j,
    {
        let nb = objects[first + j].to_aabb();
        bb = bb.add(&nb);
        j = j + 1;
    }
    bb
}

/// The surface-area cost of covering `count` primitives with a box of
/// surface area `sa`.
fn sah_cost(sa: i128, count: usize) -> (c: i128)
    requires
        0 <= sa <= 24 * COORD_BOUND * COORD_BOUND,
    ensures
        c == sa * count,
        0 <= c <= 24 * COORD_BOUND * COORD_BOUND * 0x1_0000_0000_0000_0000,
{
    proof {
        crate::num::lemma_mul_bound(sa as int, count as int, 24 * COORD_BOUND * COORD_BOUND,
            0x1_0000_0000_0000_0000);
        assert(sa * count >= 0) by (nonlinear_arith)
            requires
                sa >= 0,
                count >= 0,
        ;
    }
    sa * (count as i128)
}

/// Pick a split of the range `[first, first + count)`, sorting the range by
/// the winning axis; `None` keeps the range as one leaf.  Under the naive
/// mode the range is sorted by centroid x and split at its middle
/// unconditionally; under the heuristic modes the range ends sorted by the
/// winning axis and the split is taken only when its surface-area cost, on
/// that final arrangement, strictly beats leaving the range whole (the
/// first improvement found winning ties among equal costs).
fn get_split(objects: &mut Vec<Primitive>, first: usize, count: usize, options: &Options)
    -> (res: Option<usize>)
    requires
        objs_wf(old(objects)@),
        first + count <= old(objects)@.len(),
        count >= 1,
    ensures
        final(objects)@.len() == old(objects)@.len(),
        forall|j: int| 0 <= j < final(objects)@.len() && !(first <= j < first + count)
            ==> final(objects)@[j] == old(objects)@[j],
        final(objects)@.to_multiset() == old(objects)@.to_multiset(),
        objs_wf(final(objects)@),
        res matches Some(k) ==> 1 <= k < count,
        options.options@.contains(AlgorithmOptions::BvhNaive) ==> {
            &&& count < 3 ==> res is None && final(objects)@ == old(objects)@
            &&& count >= 3 ==> res == Some((count / 2) as usize)
                && range_sorted(final(objects)@, first as int, count as int, 0)
        },
        !options.options@.contains(AlgorithmOptions::BvhNaive)
            ==> (res matches Some(k) ==> exists|ax: u8| #[trigger] range_sorted(
                    final(objects)@, first as int, count as int, ax) && ax < 3
                && split_cost(final(objects)@, first as int, k as int, count as int)
                    < leaf_cost(final(objects)@, first as int, count as int)),
{
    if options.has_option(AlgorithmOptions::BvhNaive) {
        if count < 3 {
            return None;
        }
        sort_range(objects, first, count, 0);
        return Some(count / 2);
    }
    if count < 2 {
        return None;
    }
    let plane_only = options.has_option(AlgorithmOptions::BvhSahPlane);
    let nlen = objects.len();
    let pbb = range_aabb(objects, first, count);
    let mut best_cost = sah_cost(pbb.surface_area(), count);
    let mut best: Option<(u8, usize)> = None;
    let ghost orig = objects@;
    let mut axis: u8 = 0;
    while axis < 3
        invariant
            first + count <= objects@.len(),
            nlen == objects@.len(),
            count >= 2,
            objects@.len() == orig.len(),
            forall|j: int| 0 <= j < objects@.len() && !(first <= j < first + count)
                ==> objects@[j] == orig[j],
            objects@.to_multiset() == orig.to_multiset(),
            objs_wf(objects@),
            best matches Some(p) ==> 1 <= p.1 < count && p.0 < 3,
        decreases 3 - axis,
    {
        sort_range(objects, first, count, axis);
        let mut k: usize = if plane_only { count / 2 } else { 1 };
        let k_end: usize = if plane_only { count / 2 + 1 } else { count };
        while k < k_end
            invariant
                first + count <= objects@.len(),
                nlen == objects@.len(),
                count >= 2,
                1 <= k,
                k_end <= count + 1,
                k_end >= 2,
                axis < 3,
                objs_wf(objects@),
                best matches Some(p) ==> 1 <= p.1 < count && p.0 < 3,
            decreases k_end - k,
        {
            if k < count {
                let lbb = range_aabb(objects, first, k);
                let rbb = range_aabb(objects, first + k, count - k);
                let cost = sah_cost(lbb.surface_area(), k) + sah_cost(rbb.surface_area(), count - k);
                if cost < best_cost {
                    best_cost = cost;
                    best = Some((axis, k));
                }
            }
            k = k + 1;
        }
        axis = axis + 1;
    }
    match best {
        Some((ax, k)) => {
            sort_range(objects, first, count, ax);
            // The sort is only pinned up to ties among equal keys, so the
            // strict-improvement rule is re-checked on the arrangement the
            // caller will actually split.
            let lbb = range_aabb(objects, first, k);
            let rbb = range_aabb(objects, first + k, count - k);
            let cost = sah_cost(lbb.surface_area(), k)
                + sah_cost(rbb.surface_area(), count - k);
            let pbb2 = range_aabb(objects, first, count);
            let pre = sah_cost(pbb2.surface_area(), count);
            if cost < pre {
                proof {
                    assert(range_sorted(objects@, first as int, count as int, ax));
                    assert(cost == split_cost(objects@, first as int, k as int, count as int));
                    assert(pre == leaf_cost(objects@, first as int, count as int));
                }
                Some(k)
            } else {
                None
            }
        },
        None => None,
    }
}

/// Node soundness only looks at the primitives of the node's own range, so
/// it survives changes elsewhere in the array.
proof fn lemma_node_ok_stable(nodes: Seq<BvhNode>, objs1: Seq<Primitive>, objs2: Seq<Primitive>,
    n: int)
    requires
        0 <= n < nodes.len(),
        node_ok(nodes, objs1, n),
        objs1.len() == objs2.len(),
        forall|i: int| nodes[n].first <= i < nodes[n].first + nodes[n].count
            ==> objs2[i] == objs1[i],
    ensures
        node_ok(nodes, objs2, n),
{
    let nd = nodes[n];
    assert forall|i: int| nd.first <= i < nd.first + nd.count
        implies box_subset(prim_aabb(#[trigger] objs2[i]), nd.aabb) by {
        assert(objs2[i] == objs1[i]);
    }
}

/// Node soundness only looks at nodes of lower index, so it survives
/// appending nodes.
proof fn lemma_node_ok_grow(nodes1: Seq<BvhNode>, nodes2: Seq<BvhNode>, objs: Seq<Primitive>,
    n: int)
    requires
        0 <= n < nodes1.len() <= nodes2.len(),
        node_ok(nodes1, objs, n),
        nodes2.subrange(0, nodes1.len() as int) == nodes1,
    ensures
        node_ok(nodes2, objs, n),
{
    assert(nodes2[n] == nodes1[n]);
    let nd = nodes1[n];
    if !nd.is_leaf {
        assert(nodes2[nd.left as int] == nodes1[nd.left as int]);
        assert(nodes2[nd.right as int] == nodes1[nd.right as int]);
    }
}

/// Build the subtree over `[first, first + count)`, appending its nodes and
/// returning the subtree root's index (the last node appended).
fn build_node(objects: &mut Vec<Primitive>, nodes: &mut Vec<BvhNode>, first: usize, count: usize,
    options: &Options) -> (idx: usize)
    requires
        objs_wf(old(objects)@),
        first + count <= old(objects)@.len(),
        count >= 1,
        old(nodes)@.len() + 2 * count <= usize::MAX,
        forall|n: int| 0 <= n < old(nodes)@.len()
            ==> node_ok(old(nodes)@, old(objects)@, n)
                && (old(nodes)@[n].first + old(nodes)@[n].count <= first
                    || first + count <= old(nodes)@[n].first),
    ensures
        final(objects)@.len() == old(objects)@.len(),
        forall|j: int| 0 <= j < final(objects)@.len() && !(first <= j < first + count)
            ==> final(objects)@[j] == old(objects)@[j],
        final(objects)@.to_multiset() == old(objects)@.to_multiset(),
        objs_wf(final(objects)@),
        old(nodes)@.len() < final(nodes)@.len() <= old(nodes)@.len() + 2 * count - 1,
        final(nodes)@.subrange(0, old(nodes)@.len() as int) == old(nodes)@,
        idx == final(nodes)@.len() - 1,
        final(nodes)@[idx as int].first == first,
        final(nodes)@[idx as int].count == count,
        forall|n: int| old(nodes)@.len() <= n < final(nodes)@.len()
            ==> first <= #[trigger] final(nodes)@[n].first
                && final(nodes)@[n].first + final(nodes)@[n].count <= first + count,
        forall|n: int| 0 <= n < final(nodes)@.len()
            ==> node_ok(final(nodes)@, final(objects)@, n),
    decreases count,
{
    let ghost objs0 = objects@;
    let ghost nodes0 = nodes@;
    let tot = objects.len();
    let split = get_split(objects, first, count, options);
    let ghost objs1 = objects@;
    proof {
        assert forall|n: int| 0 <= n < nodes@.len()
            implies node_ok(nodes@, objs1, n)
                && (nodes@[n].first + nodes@[n].count <= first
                    || first + count <= nodes@[n].first) by {
            assert(node_ok(nodes0, objs0, n));
            assert(nodes0[n].first + nodes0[n].count <= first
                || first + count <= nodes0[n].first);
            assert forall|i: int| nodes@[n].first <= i < nodes@[n].first + nodes@[n].count
                implies objs1[i] == objs0[i] by {
                assert(!(first <= i < first + count));
            }
            lemma_node_ok_stable(nodes@, objs0, objs1, n);
        }
    }
    match split {
        None => {
            let bb = range_aabb(objects, first, count);
            let node = BvhNode { aabb: bb, is_leaf: true, left: 0, right: 0, first, count };
            let ghost pre = nodes@;
            nodes.push(node);
            proof {
                assert(nodes@.subrange(0, pre.len() as int) =~= pre);
                assert forall|n: int| 0 <= n < nodes@.len()
                    implies node_ok(nodes@, objs1, n) by {
                    if n < pre.len() {
                        lemma_node_ok_grow(pre, nodes@, objs1, n);
                    }
                }
                assert(nodes@.subrange(0, nodes0.len() as int) =~= nodes0);
                assert(pre == nodes0);
                assert(nodes@.len() == nodes0.len() + 1);
                assert(count >= 1);
                assert(nodes@[nodes0.len() as int] == node);
                assert forall|n: int| nodes0.len() <= n < nodes@.len()
                    implies first <= #[trigger] nodes@[n].first
                        && nodes@[n].first + nodes@[n].count <= first + count by {
                    assert(nodes@[n] == node);
                }
            }
            nodes.len() - 1
        },
        Some(k) => {
            proof {
                assert forall|n: int| 0 <= n < nodes@.len()
                    implies node_ok(nodes@, objs1, n)
                        && (nodes@[n].first + nodes@[n].count <= first
                            || first + k <= nodes@[n].first) by {
                    assert(node_ok(nodes0, objs0, n));
                }
            }
            let li = build_node(objects, nodes, first, k, options);
            let ghost objs2 = objects@;
            let ghost nodes2 = nodes@;
            proof {
                assert forall|n: int| 0 <= n < nodes2.len()
                    implies node_ok(nodes2, objs2, n)
                        && (nodes2[n].first + nodes2[n].count <= first + k
                            || first + k + (count - k) <= nodes2[n].first) by {
                    assert(node_ok(nodes2, objs2, n));
                    if n < nodes0.len() {
                        assert(nodes2[n] == nodes0[n]);
                        assert(node_ok(nodes0, objs0, n));
                        assert(nodes0[n].first + nodes0[n].count <= first
                            || first + count <= nodes0[n].first);
                    } else {
                        assert(first <= nodes2[n].first
                            && nodes2[n].first + nodes2[n].count <= first + k);
                    }
                }
            }
            proof {
                assert(first + k <= tot);
            }
            let ri = build_node(objects, nodes, first + k, count - k, options);
            let ghost objs3 = objects@;
            let ghost nodes3 = nodes@;
            proof {
                assert(nodes3[li as int] == nodes2[li as int]);
                assert(node_ok(nodes3, objs3, li as int));
                assert(node_ok(nodes3, objs3, ri as int));
            }
            let lb = nodes[li].aabb;
            let rb = nodes[ri].aabb;
            let bb = lb.add(&rb);
            let node = BvhNode {
                aabb: bb,
                is_leaf: false,
                left: li,
                right: ri,
                first,
                count,
            };
            let ghost pre = nodes@;
            nodes.push(node);
            proof {
                assert(nodes@.subrange(0, pre.len() as int) =~= pre);
                assert forall|n: int| 0 <= n < pre.len()
                    implies node_ok(nodes@, objs3, n) by {
                    lemma_node_ok_grow(pre, nodes@, objs3, n);
                }
                assert forall|n: int| nodes0.len() <= n < nodes@.len()
                    implies first <= #[trigger] nodes@[n].first
                        && nodes@[n].first + nodes@[n].count <= first + count by {
                    if n < nodes3.len() {
                        assert(nodes@[n] == nodes3[n]);
                        if n < nodes2.len() {
                            assert(nodes3[n] == nodes3.subrange(0, nodes2.len() as int)[n]);
                            assert(nodes3[n] == nodes2[n]);
                            assert(first <= nodes2[n].first
                                && nodes2[n].first + nodes2[n].count <= first + k);
                        } else {
                            assert(first + k <= nodes3[n].first
                                && nodes3[n].first + nodes3[n].count
                                    <= first + k + (count - k));
                        }
                    } else {
                        assert(nodes@[n] == node);
                    }
                }
                // The new root: every primitive of the left half sits in the
                // left child's box, every one of the right half in the right
                // child's, and both boxes sit inside the union.
                let m = pre.len() as int;
                assert(nodes@[m] == node);
                assert(node_ok(nodes@, objs3, m)) by {
                    assert(nodes@[node.left as int] == nodes2[li as int]);
                    assert(node_ok(nodes3, objs3, li as int));
                    assert forall|i: int| first <= i < first + count
                        implies box_subset(prim_aabb(#[trigger] objs3[i]), bb) by {
                        if i < first + k {
                            assert(objs3[i] == objs2[i]);
                            assert(node_ok(nodes2, objs2, li as int));
                            assert(box_subset(prim_aabb(objs2[i]), lb));
                        } else {
                            assert(node_ok(nodes3, objs3, ri as int));
                            assert(box_subset(prim_aabb(objs3[i]), rb));
                        }
                    }
                }
                assert(nodes@.subrange(0, nodes0.len() as int) =~= nodes0);
                assert forall|j: int| 0 <= j < objects@.len() && !(first <= j < first + count)
                    implies objects@[j] == objs0[j] by {
                }
            }
            nodes.len() - 1
        },
    }
}

/// The hierarchy is sound, and its root covers the whole primitive array.
pub open spec fn bvh_ok(b: Bvh) -> bool {
    &&& bvh_wf(b.nodes@, b.objects@)
    &&& objs_wf(b.objects@)
    &&& b.nodes@.len() >= 1
    &&& b.nodes@.last().first == 0
    &&& b.nodes@.last().count == b.objects@.len()
}

impl Bvh {
    /// Build a hierarchy over the given primitives; they are reordered
    /// during the build but remain the same collection.
    pub fn new(objects: Vec<Primitive>, options: &Options) -> (b: Bvh)
        requires
            objs_wf(objects@),
            1 <= objects@.len(),
            2 * objects@.len() <= usize::MAX,
        ensures
            bvh_ok(b),
            b.objects@.len() == objects@.len(),
            b.objects@.to_multiset() == objects@.to_multiset(),
    {
        let mut objs = objects;
        let mut nodes: Vec<BvhNode> = Vec::new();
        let count = objs.len();
        let root = build_node(&mut objs, &mut nodes, 0, count, options);
        Bvh { objects: objs, nodes }
    }

    /// The nearest hit of the whole scene over `(lo, hi)`.
    pub fn hit(&self, r: &Ray, lo: &Rat, hi: &Rat, data: &mut Data) -> (res: Option<HitRecord>)
        requires
            bvh_ok(*self),
            ray_wf(*r),
            rat_wf(*lo),
            rat_wf(*hi),
        ensures
            nearest_hit_in(self.objects@, *r, *lo, *hi, 0, self.objects@.len() as int, res),
    {
        let root = self.root();
        self.hit_node(root, r, lo, hi, data)
    }
}

/// Combine a nearest hit of the far child's range over the shrunk interval
/// `(lo, best)` with the full interval `(lo, hi)`: every hit it reports is
/// a full-interval hit, and what it misses hits no closer than `best`.
proof fn lemma_combine_far(objs: Seq<Primitive>, r: Ray, lo: Rat, hi: Rat, fa: int, fb: int,
    rec: HitRecord, res_far: Option<HitRecord>)
    requires
        objs_wf(objs),
        ray_wf(r),
        rat_wf(lo),
        rat_wf(hi),
        0 <= fa <= fb <= objs.len(),
        t_tight(rec.t),
        rlt(lo, rec.t),
        rlt(rec.t, hi),
        nearest_hit_in(objs, r, lo, rec.t, fa, fb, res_far),
    ensures
        res_far matches Some(rec2) ==> {
            &&& range_hit_at(objs, r, lo, hi, fa, fb, rec2)
            &&& rlt(rec2.t, rec.t)
            &&& forall|i: int| fa <= i < fb
                && #[trigger] prim_hit_t(objs[i], r, lo, hi) is Some
                ==> rle(rec2.t, prim_hit_t(objs[i], r, lo, hi)->Some_0)
        },
        res_far is None ==> range_none_before(objs, r, lo, hi, fa, fb, rec.t),
{
    match res_far {
        Some(rec2) => {
            let wi = choose|i: int| fa <= i < fb
                && #[trigger] prim_hit_t(objs[i], r, lo, rec.t) == Some(rec2.t)
                && rec2 == crate::hit::prim_hit_rec(objs[i], r, rec2.t);
            lemma_prim_restrict(objs[wi], r, lo, hi, rec.t);
            assert(prim_hit_t(objs[wi], r, lo, hi) == Some(rec2.t));
            assert(range_hit_at(objs, r, lo, hi, fa, fb, rec2));
            assert forall|i: int| fa <= i < fb
                && #[trigger] prim_hit_t(objs[i], r, lo, hi) is Some
                implies rle(rec2.t, prim_hit_t(objs[i], r, lo, hi)->Some_0) by {
                let u = prim_hit_t(objs[i], r, lo, hi)->Some_0;
                lemma_prim_hit_t_props(objs[i], r, lo, hi);
                lemma_prim_restrict(objs[i], r, lo, hi, rec.t);
                if rlt(u, rec.t) {
                    assert(prim_hit_t(objs[i], r, lo, rec.t) == Some(u));
                } else {
                    lemma_rlt_rle_trans(rec2.t, rec.t, u);
                }
            }
        },
        None => {
            assert forall|i: int| fa <= i < fb
                && #[trigger] prim_hit_t(objs[i], r, lo, hi) is Some
                implies rle(rec.t, prim_hit_t(objs[i], r, lo, hi)->Some_0) by {
                let u = prim_hit_t(objs[i], r, lo, hi)->Some_0;
                lemma_prim_hit_t_props(objs[i], r, lo, hi);
                lemma_prim_restrict(objs[i], r, lo, hi, rec.t);
                if rlt(u, rec.t) {
                    assert(prim_hit_t(objs[i], r, lo, rec.t) == Some(u));
                }
            }
        },
    }
}

} // verus!
