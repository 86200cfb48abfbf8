//! The scene container and the closest-hit scan.  The scan over a range of
//! primitives keeps shrinking the far end of the interval, and its result
//! is proved to be the nearest hit of the range: it is a real hit, and no
//! primitive in the range hits closer.

use vstd::prelude::*;
use crate::hit::{HitRecord, Primitive, prim_hit, prim_hit_t, prim_hit_rec, prim_wf, t_tight,
    lemma_prim_restrict, lemma_prim_hit_t_props};
use crate::rat::{Rat, rat_wf, rle, rlt, lemma_rlt_trans, lemma_rlt_rle_trans, lemma_rle_rlt_trans};
use crate::ray::{Ray, ray_wf};
use crate::data::Data;

verus! {

/// Every primitive of the sequence is well-formed.
pub open spec fn objs_wf(s: Seq<Primitive>) -> bool {
    forall|i: int| 0 <= i < s.len() ==> prim_wf(#[trigger] s[i])
}

/// Some primitive with index in `[a, b)` hits at exactly `t`, and `rec` is
/// its record.
pub open spec fn range_hit_at(s: Seq<Primitive>, r: Ray, lo: Rat, hi: Rat, a: int, b: int,
    rec: HitRecord) -> bool {
    exists|i: int| a <= i < b && #[trigger] prim_hit_t(s[i], r, lo, hi) == Some(rec.t)
        && rec == prim_hit_rec(s[i], r, rec.t)
}

/// No primitive with index in `[a, b)` hits strictly before `t`.
pub open spec fn range_none_before(s: Seq<Primitive>, r: Ray, lo: Rat, hi: Rat, a: int, b: int,
    t: Rat) -> bool {
    forall|i: int| a <= i < b && #[trigger] prim_hit_t(s[i], r, lo, hi) is Some
        ==> rle(t, prim_hit_t(s[i], r, lo, hi)->Some_0)
}

/// No primitive with index in `[a, b)` hits at all.
pub open spec fn range_misses(s: Seq<Primitive>, r: Ray, lo: Rat, hi: Rat, a: int, b: int) -> bool {
    forall|i: int| a <= i < b ==> #[trigger] prim_hit_t(s[i], r, lo, hi) is None
}

/// The nearest-hit contract of a scan over `[a, b)`.
pub open spec fn nearest_hit_in(s: Seq<Primitive>, r: Ray, lo: Rat, hi: Rat, a: int, b: int,
    res: Option<HitRecord>) -> bool {
    match res {
        Some(rec) => {
            &&& range_hit_at(s, r, lo, hi, a, b, rec)
            &&& range_none_before(s, r, lo, hi, a, b, rec.t)
            &&& t_tight(rec.t)
            &&& rlt(lo, rec.t)
            &&& rlt(rec.t, hi)
        },
        None => range_misses(s, r, lo, hi, a, b),
    }
}

/// Scan the primitives with indices `[first, first + count)` and return the
/// nearest hit within `(lo, hi)`.
pub fn hit_range(objects: &Vec<Primitive>, r: &Ray, lo: &Rat, hi: &Rat, first: usize, count: usize,
    data: &mut Data) -> (res: Option<HitRecord>)
    requires
        objs_wf(objects@),
        ray_wf(*r),
        rat_wf(*lo),
        rat_wf(*hi),
        first + count <= objects@.len(),
    ensures
        nearest_hit_in(objects@, *r, *lo, *hi, first as int, first + count, res),
{
    let n = objects.len();
    let mut acc: Option<HitRecord> = None;
    let mut closest: Rat = *hi;
    let mut k: usize = 0;
    while k < count
        invariant
            objs_wf(objects@),
            ray_wf(*r),
            rat_wf(*lo),
            rat_wf(*hi),
            n == objects@.len(),
            first + count <= objects@.len(),
            k <= count,
            rat_wf(closest),
            rle(closest, *hi),
            match acc {
                Some(rec) => {
                    &&& closest == rec.t
                    &&& t_tight(rec.t)
                    &&& rlt(*lo, rec.t)
                    &&& rlt(rec.t, *hi)
                    &&& range_hit_at(objects@, *r, *lo, *hi, first as int, first + k, rec)
                    &&& range_none_before(objects@, *r, *lo, *hi, first as int, first + k, rec.t)
                },
                None => {
                    &&& closest == *hi
                    &&& range_misses(objects@, *r, *lo, *hi, first as int, first + k)
                },
            },
        decreases count - k,
    {
        let i = first + k;
        let obj = &objects[i];
        data.add_intersection_check();
        let step = obj.hit(r, lo, &closest);
        proof {
            lemma_prim_restrict(objects@[i as int], *r, *lo, *hi, closest);
            lemma_prim_hit_t_props(objects@[i as int], *r, *lo, *hi);
        }
        match step {
            Some(rec) => {
                proof {
                    // The restricted hit is the full hit, and it lies before
                    // every hit seen so far.
                    assert(prim_hit_t(objects@[i as int], *r, *lo, *hi) == Some(rec.t));
                    assert(rlt(rec.t, closest));
                    if acc is Some {
                        let prev = acc->Some_0;
                        assert forall|j: int|
                            first <= j < first + k + 1
                                && #[trigger] prim_hit_t(objects@[j], *r, *lo, *hi) is Some
                            implies rle(rec.t, prim_hit_t(objects@[j], *r, *lo, *hi)->Some_0) by {
                            let u = prim_hit_t(objects@[j], *r, *lo, *hi)->Some_0;
                            lemma_prim_hit_t_props(objects@[j], *r, *lo, *hi);
                            if j < first + k {
                                assert(rle(prev.t, u));
                                lemma_rlt_rle_trans(rec.t, prev.t, u);
                            }
                        }
                    } else {
                        assert forall|j: int|
                            first <= j < first + k + 1
                                && #[trigger] prim_hit_t(objects@[j], *r, *lo, *hi) is Some
                            implies rle(rec.t, prim_hit_t(objects@[j], *r, *lo, *hi)->Some_0) by {
                        }
                    }
                }
                closest = rec.t;
                acc = Some(rec);
            },
            None => {
                proof {
                    // This primitive either misses outright or hits no
                    // earlier than the best seen so far.
                    if acc is Some {
                        let prev = acc->Some_0;
                        assert forall|j: int|
                            first <= j < first + k + 1
                                && #[trigger] prim_hit_t(objects@[j], *r, *lo, *hi) is Some
                            implies rle(prev.t, prim_hit_t(objects@[j], *r, *lo, *hi)->Some_0) by {
                            lemma_prim_hit_t_props(objects@[j], *r, *lo, *hi);
                        }
                    }
                }
            },
        }
        k = k + 1;
    }
    acc
}

/// Some primitive of the scene hits at exactly `rec.t` and fills `rec`.
/// Stated over membership, so it carries over to any reordering.
pub open spec fn scene_hits_at(s: Seq<Primitive>, r: Ray, lo: Rat, hi: Rat,
    rec: HitRecord) -> bool {
    exists|p: Primitive| #[trigger] s.contains(p) && prim_hit_t(p, r, lo, hi) == Some(rec.t)
        && rec == prim_hit_rec(p, r, rec.t)
}

/// No primitive of the scene hits strictly before `t`.
pub open spec fn scene_none_before(s: Seq<Primitive>, r: Ray, lo: Rat, hi: Rat, t: Rat) -> bool {
    forall|p: Primitive| #[trigger] s.contains(p) && prim_hit_t(p, r, lo, hi) is Some
        ==> rle(t, prim_hit_t(p, r, lo, hi)->Some_0)
}

/// No primitive of the scene hits at all.
pub open spec fn scene_misses(s: Seq<Primitive>, r: Ray, lo: Rat, hi: Rat) -> bool {
    forall|p: Primitive| #[trigger] s.contains(p) ==> prim_hit_t(p, r, lo, hi) is None
}

/// The nearest-hit contract, stated over membership.
pub open spec fn scene_nearest(s: Seq<Primitive>, r: Ray, lo: Rat, hi: Rat,
    res: Option<HitRecord>) -> bool {
    match res {
        Some(rec) => {
            &&& scene_hits_at(s, r, lo, hi, rec)
            &&& scene_none_before(s, r, lo, hi, rec.t)
            &&& t_tight(rec.t)
            &&& rlt(lo, rec.t)
            &&& rlt(rec.t, hi)
        },
        None => scene_misses(s, r, lo, hi),
    }
}

/// An index-range nearest hit over the whole array is a membership-level
/// nearest hit.
pub proof fn lemma_nearest_to_scene(s: Seq<Primitive>, r: Ray, lo: Rat, hi: Rat,
    res: Option<HitRecord>)
    requires
        nearest_hit_in(s, r, lo, hi, 0, s.len() as int, res),
    ensures
        scene_nearest(s, r, lo, hi, res),
{
    match res {
        Some(rec) => {
            let wi = choose|wi: int| 0 <= wi < s.len()
                && #[trigger] prim_hit_t(s[wi], r, lo, hi) == Some(rec.t)
                && rec == prim_hit_rec(s[wi], r, rec.t);
            assert(s.contains(s[wi]));
            assert forall|p: Primitive| #[trigger] s.contains(p)
                && prim_hit_t(p, r, lo, hi) is Some
                implies rle(rec.t, prim_hit_t(p, r, lo, hi)->Some_0) by {
                let j = choose|j: int| 0 <= j < s.len() && s[j] == p;
            }
        },
        None => {
            assert forall|p: Primitive| #[trigger] s.contains(p)
                implies prim_hit_t(p, r, lo, hi) is None by {
                let j = choose|j: int| 0 <= j < s.len() && s[j] == p;
            }
        },
    }
}

/// Membership-level facts carry over to any permutation of the scene.
pub proof fn lemma_scene_nearest_perm(s1: Seq<Primitive>, s2: Seq<Primitive>, r: Ray, lo: Rat,
    hi: Rat, res: Option<HitRecord>)
    requires
        s1.to_multiset() == s2.to_multiset(),
        scene_nearest(s1, r, lo, hi, res),
    ensures
        scene_nearest(s2, r, lo, hi, res),
{
    s1.to_multiset_ensures();
    s2.to_multiset_ensures();
    match res {
        Some(rec) => {
            let p = choose|p: Primitive| #[trigger] s1.contains(p)
                && prim_hit_t(p, r, lo, hi) == Some(rec.t) && rec == prim_hit_rec(p, r, rec.t);
            assert(s1.to_multiset().count(p) > 0);
            assert(s2.contains(p));
            assert forall|q: Primitive| #[trigger] s2.contains(q)
                && prim_hit_t(q, r, lo, hi) is Some
                implies rle(rec.t, prim_hit_t(q, r, lo, hi)->Some_0) by {
                assert(s2.to_multiset().count(q) > 0);
                assert(s1.contains(q));
            }
        },
        None => {
            assert forall|q: Primitive| #[trigger] s2.contains(q)
                implies prim_hit_t(q, r, lo, hi) is None by {
                assert(s2.to_multiset().count(q) > 0);
                assert(s1.contains(q));
            }
        },
    }
}

/// Two nearest-hit results over the same scene agree: they hit together,
/// and when they hit, at the same parameter.  This is what ties the plain
/// scan and the hierarchy traversal to each other.
pub proof fn lemma_nearest_unique(s: Seq<Primitive>, r: Ray, lo: Rat, hi: Rat,
    res1: Option<HitRecord>, res2: Option<HitRecord>)
    requires
        scene_nearest(s, r, lo, hi, res1),
        scene_nearest(s, r, lo, hi, res2),
    ensures
        res1.is_some() == res2.is_some(),
        (res1 is Some && res2 is Some)
            ==> crate::rat::req(res1->Some_0.t, res2->Some_0.t),
{
    match (res1, res2) {
        (Some(a), Some(b)) => {
            let p1 = choose|p: Primitive| #[trigger] s.contains(p)
                && prim_hit_t(p, r, lo, hi) == Some(a.t) && a == prim_hit_rec(p, r, a.t);
            let p2 = choose|p: Primitive| #[trigger] s.contains(p)
                && prim_hit_t(p, r, lo, hi) == Some(b.t) && b == prim_hit_rec(p, r, b.t);
            assert(rle(a.t, b.t));
            assert(rle(b.t, a.t));
        },
        (Some(a), None) => {
            let p1 = choose|p: Primitive| #[trigger] s.contains(p)
                && prim_hit_t(p, r, lo, hi) == Some(a.t) && a == prim_hit_rec(p, r, a.t);
        },
        (None, Some(b)) => {
            let p2 = choose|p: Primitive| #[trigger] s.contains(p)
                && prim_hit_t(p, r, lo, hi) == Some(b.t) && b == prim_hit_rec(p, r, b.t);
        },
        (None, None) => {},
    }
}

} // verus!
