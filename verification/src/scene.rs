//! The scene container and the ray-color recursion.  The container holds
//! the primitives once, with materials in a separate table addressed by
//! handle, and dispatches a hit query to the plain scan, the hierarchy or
//! the grid — all three proved to return the nearest hit, so the dispatch
//! carries one contract.  The color of a ray is gathered by bouncing
//! scattered rays up to a depth limit.

use vstd::prelude::*;
use crate::bvh::{Bvh, bvh_ok};
use crate::data::Data;
use crate::hit::{HitRecord, Primitive, prim_aabb, prim_hit_t, prim_hit_rec, prim_mat, prim_wf,
    at_rat, lemma_prim_hit_t_props, lemma_prim_aabb_wf, lemma_hit_rec_normal_unit};
use crate::grid::{Grid, grid_ok};
use crate::hittable_list::{hit_range, objs_wf, scene_nearest, scene_misses, scene_hits_at,
    lemma_nearest_to_scene, lemma_scene_nearest_perm};
use crate::material::{Material, mat_wf, color_wf, white, scatter, random_unit, random_scaled,
    CSCALE};
use crate::num::{isq, isqrt, lemma_div_le, lemma_mul_bound};
use crate::rat::{Rat, rat_wf};
use crate::ray::{Ray, ray_wf, at_num, at_in_range};
use crate::unit::{USCALE, unit_of, unit_scaled, unit_dir, sdiv, div_tz, div_nn};
use crate::vec3i::{Vec3i, v3_bounded, sdot, COORD_BOUND};

verus! {

/// The intersection strategy a scene answers hit queries with.
pub enum Accel {
    Linear,
    Tree(Bvh),
    Voxels(Grid),
}

/// A scene: the primitives, the material table their handles index, and the
/// chosen acceleration structure over the same primitives.
pub struct Scene {
    pub objects: Vec<Primitive>,
    pub materials: Vec<Material>,
    pub accel: Accel,
}

/// A sound scene: well-formed primitives whose material handles all land in
/// the table of well-formed materials, and an acceleration structure built
/// over exactly the scene's primitives.
pub open spec fn scene_wf(s: Scene) -> bool {
    &&& objs_wf(s.objects@)
    &&& (forall|i: int| 0 <= i < s.objects@.len()
            ==> prim_mat(#[trigger] s.objects@[i]) < s.materials@.len())
    &&& (forall|i: int| 0 <= i < s.materials@.len() ==> mat_wf(#[trigger] s.materials@[i]))
    &&& match s.accel {
        Accel::Linear => true,
        Accel::Tree(b) => bvh_ok(b) && b.objects@.to_multiset() == s.objects@.to_multiset(),
        Accel::Voxels(g) => grid_ok(g) && g.objects@ == s.objects@,
    }
}

impl Scene {
    /// A scene answered by the plain scan.
    pub fn new_linear(objects: Vec<Primitive>, materials: Vec<Material>) -> (s: Scene)
        requires
            objs_wf(objects@),
            forall|i: int| 0 <= i < objects@.len()
                ==> prim_mat(#[trigger] objects@[i]) < materials@.len(),
            forall|i: int| 0 <= i < materials@.len() ==> mat_wf(#[trigger] materials@[i]),
        ensures
            scene_wf(s),
            s.objects@ == objects@,
            s.materials@ == materials@,
    {
        Scene { objects, materials, accel: Accel::Linear }
    }

    /// A scene answered by the bounding volume hierarchy.
    pub fn new_bvh(objects: Vec<Primitive>, materials: Vec<Material>,
        options: &crate::options::Options) -> (s: Scene)
        requires
            objs_wf(objects@),
            1 <= objects@.len(),
            2 * objects@.len() <= usize::MAX,
            forall|i: int| 0 <= i < objects@.len()
                ==> prim_mat(#[trigger] objects@[i]) < materials@.len(),
            forall|i: int| 0 <= i < materials@.len() ==> mat_wf(#[trigger] materials@[i]),
        ensures
            scene_wf(s),
            s.objects@ == objects@,
            s.materials@ == materials@,
    {
        let tree = Bvh::new(clone_objects(&objects), options);
        Scene { objects, materials, accel: Accel::Tree(tree) }
    }

    /// A scene answered by the uniform grid.
    pub fn new_grid(objects: Vec<Primitive>, materials: Vec<Material>, box_size: Vec3i,
        origin: Vec3i, end: Vec3i) -> (s: Scene)
        requires
            objs_wf(objects@),
            forall|i: int| 0 <= i < objects@.len()
                ==> prim_mat(#[trigger] objects@[i]) < materials@.len(),
            forall|i: int| 0 <= i < materials@.len() ==> mat_wf(#[trigger] materials@[i]),
            v3_bounded(origin, COORD_BOUND as int),
            v3_bounded(end, COORD_BOUND as int),
            box_size.x >= 1 && box_size.y >= 1 && box_size.z >= 1,
            origin.x < end.x && origin.y < end.y && origin.z < end.z,
            (end.x - origin.x) % (box_size.x as int) == 0,
            (end.y - origin.y) % (box_size.y as int) == 0,
            (end.z - origin.z) % (box_size.z as int) == 0,
            ((end.x - origin.x) / (box_size.x as int))
                * ((end.y - origin.y) / (box_size.y as int))
                * ((end.z - origin.z) / (box_size.z as int)) <= 0x1000_0000,
            forall|o: int| 0 <= o < objects@.len()
                ==> crate::bvh::box_subset(prim_aabb(#[trigger] objects@[o]),
                    crate::aabb::AABB { min: origin, max: end }),
        ensures
            scene_wf(s),
            s.objects@ == objects@,
            s.materials@ == materials@,
    {
        let voxels = Grid::new(clone_objects(&objects), box_size, origin, end);
        Scene { objects, materials, accel: Accel::Voxels(voxels) }
    }

    /// The nearest hit of the scene within `(lo, hi)`: whichever structure
    /// answers, the result is the same nearest-hit contract the plain scan
    /// carries.
    pub fn hit(&self, r: &Ray, lo: &Rat, hi: &Rat, data: &mut Data) -> (res: Option<HitRecord>)
        requires
            scene_wf(*self),
            ray_wf(*r),
            rat_wf(*lo),
            rat_wf(*hi),
            lo.num >= 0,
        ensures
            scene_nearest(self.objects@, *r, *lo, *hi, res),
    {
        match &self.accel {
            Accel::Linear => {
                let n = self.objects.len();
                let res = hit_range(&self.objects, r, lo, hi, 0, n, data);
                proof {
                    lemma_nearest_to_scene(self.objects@, *r, *lo, *hi, res);
                }
                res
            },
            Accel::Tree(b) => {
                let res = b.hit(r, lo, hi, data);
                proof {
                    lemma_nearest_to_scene(b.objects@, *r, *lo, *hi, res);
                    lemma_scene_nearest_perm(b.objects@, self.objects@, *r, *lo, *hi, res);
                }
                res
            },
            Accel::Voxels(g) => {
                let res = g.hit(r, lo, hi, data);
                proof {
                    lemma_nearest_to_scene(g.objects@, *r, *lo, *hi, res);
                }
                res
            },
        }
    }
}

/// Copy a primitive list; the copy views equal.
fn clone_objects(v: &Vec<Primitive>) -> (c: Vec<Primitive>)
    ensures
        c@ == v@,
{
    let mut out: Vec<Primitive> = Vec::new();
    let n = v.len();
    let mut i: usize = 0;
    while i < n
        invariant
            n == v@.len(),
            i <= n,
            out@ == v@.subrange(0, i as int),
        decreases n - i,
    {
        out.push(v[i]);
        proof {
            assert(out@ =~= v@.subrange(0, i + 1));
        }
        i = i + 1;
    }
    proof {
        assert(out@ =~= v@);
    }
    out
}

/// The lower end of every hit query the color recursion makes: bounce rays
/// ignore hits nearer than this, against self-intersection.
pub open spec fn t_min() -> Rat {
    Rat { num: 1, den: 1000 }
}

/// The upper end of every hit query the color recursion makes.
pub open spec fn t_sup() -> Rat {
    Rat { num: 0x4000_0000_0000_0000, den: 1 }
}

/// The sky gradient at a given unit-scale vertical direction component:
/// white blended toward light blue as the ray points up.
pub open spec fn sky_color(uy: int) -> Vec3i {
    let t = uy + USCALE;
    let a = if t < 0 {
        0
    } else if t > 2 * USCALE {
        CSCALE as int
    } else {
        (t * CSCALE) / (2 * (USCALE as int))
    };
    Vec3i {
        x: (((CSCALE - a) * CSCALE + a * 32768) / (CSCALE as int)) as i128,
        y: (((CSCALE - a) * CSCALE + a * 45875) / (CSCALE as int)) as i128,
        z: (((CSCALE - a) * CSCALE + a * 65536) / (CSCALE as int)) as i128,
    }
}

/// One sky channel: the blend `((CSCALE - a) * white + a * blue) / CSCALE`.
fn sky_channel(a: i128, blue: i128) -> (c: i128)
    requires
        0 <= a <= CSCALE,
        0 <= blue <= CSCALE,
    ensures
        c == ((CSCALE - a) * CSCALE + a * blue) / (CSCALE as int),
        0 <= c <= CSCALE,
{
    proof {
        lemma_mul_bound((CSCALE - a) as int, CSCALE as int, CSCALE as int, CSCALE as int);
        lemma_mul_bound(a as int, blue as int, CSCALE as int, CSCALE as int);
        assert((CSCALE - a) * CSCALE >= 0 && a * blue >= 0
            && (CSCALE - a) * CSCALE + a * blue <= CSCALE * CSCALE) by (nonlinear_arith)
            requires
                0 <= a <= CSCALE,
                0 <= blue <= CSCALE,
        ;
        lemma_div_le(((CSCALE - a) * CSCALE + a * blue) as int, CSCALE as int, CSCALE as int);
    }
    div_nn((CSCALE - a) * CSCALE + a * blue, CSCALE)
}

/// The sky gradient, executably.
fn sky_from_uy(uy: i128) -> (c: Vec3i)
    requires
        -2 * USCALE <= uy <= 2 * USCALE,
    ensures
        c == sky_color(uy as int),
        color_wf(c),
{
    let t = uy + USCALE;
    let a: i128 = if t < 0 {
        0
    } else if t > 2 * USCALE {
        CSCALE
    } else {
        proof {
            lemma_mul_bound(t as int, CSCALE as int, 2 * USCALE as int, CSCALE as int);
            assert(t * CSCALE <= (2 * USCALE) * CSCALE) by (nonlinear_arith)
                requires
                    0 <= t <= 2 * USCALE,
            ;
            lemma_div_le((t * CSCALE) as int, 2 * USCALE as int, CSCALE as int);
        }
        div_nn(t * CSCALE, 2 * USCALE)
    };
    Vec3i::new(sky_channel(a, 32768), sky_channel(a, 45875), sky_channel(a, 65536))
}

/// The componentwise product of two colors at the color scale.
pub open spec fn mul_color_spec(a: Vec3i, b: Vec3i) -> Vec3i {
    Vec3i {
        x: ((a.x * b.x) / (CSCALE as int)) as i128,
        y: ((a.y * b.y) / (CSCALE as int)) as i128,
        z: ((a.z * b.z) / (CSCALE as int)) as i128,
    }
}

/// One channel of the color product.
fn mul_channel(a: i128, b: i128) -> (c: i128)
    requires
        0 <= a <= CSCALE,
        0 <= b <= CSCALE,
    ensures
        c == (a * b) / (CSCALE as int),
        0 <= c <= CSCALE,
{
    proof {
        lemma_mul_bound(a as int, b as int, CSCALE as int, CSCALE as int);
        assert(a * b >= 0 && a * b <= CSCALE * CSCALE) by (nonlinear_arith)
            requires
                0 <= a <= CSCALE,
                0 <= b <= CSCALE,
        ;
        lemma_div_le((a * b) as int, CSCALE as int, CSCALE as int);
    }
    div_nn(a * b, CSCALE)
}

/// Attenuate a color by another.
pub fn mul_color(a: &Vec3i, b: &Vec3i) -> (c: Vec3i)
    requires
        color_wf(*a),
        color_wf(*b),
    ensures
        c == mul_color_spec(*a, *b),
        color_wf(c),
{
    Vec3i::new(mul_channel(a.x, b.x), mul_channel(a.y, b.y), mul_channel(a.z, b.z))
}

/// The quantized point a hit record names, one lattice coordinate per axis.
pub open spec fn round_pt(rec: HitRecord) -> Vec3i {
    Vec3i {
        x: sdiv(rec.px.num as int, rec.px.den as int) as i128,
        y: sdiv(rec.py.num as int, rec.py.den as int) as i128,
        z: sdiv(rec.pz.num as int, rec.pz.den as int) as i128,
    }
}

/// One coordinate of the quantized hit point.
fn round_coord(num: i128, den: i128) -> (q: i128)
    requires
        0 < den <= 0x10_0000_0000_0000,
        -COORD_BOUND * den <= num <= COORD_BOUND * den,
    ensures
        q == sdiv(num as int, den as int),
        -COORD_BOUND <= q <= COORD_BOUND,
{
    proof {
        lemma_mul_bound(COORD_BOUND as int, den as int, COORD_BOUND as int,
            0x10_0000_0000_0000);
        assert(den as int * COORD_BOUND == COORD_BOUND * den as int
            && (-COORD_BOUND) * den as int == -(COORD_BOUND * den as int))
            by (nonlinear_arith);
        if num >= 0 {
            lemma_div_le(num as int, den as int, COORD_BOUND as int);
        } else {
            assert((-num) as int <= den as int * COORD_BOUND);
            lemma_div_le((-num) as int, den as int, COORD_BOUND as int);
        }
    }
    div_tz(num, den)
}

/// The quantized hit point, executably.
fn round_point(rec: &HitRecord) -> (p: Vec3i)
    requires
        0 < rec.px.den <= 0x10_0000_0000_0000,
        0 < rec.py.den <= 0x10_0000_0000_0000,
        0 < rec.pz.den <= 0x10_0000_0000_0000,
        -COORD_BOUND * rec.px.den <= rec.px.num <= COORD_BOUND * rec.px.den,
        -COORD_BOUND * rec.py.den <= rec.py.num <= COORD_BOUND * rec.py.den,
        -COORD_BOUND * rec.pz.den <= rec.pz.num <= COORD_BOUND * rec.pz.den,
    ensures
        p == round_pt(*rec),
        v3_bounded(p, COORD_BOUND as int),
{
    Vec3i::new(
        round_coord(rec.px.num, rec.px.den),
        round_coord(rec.py.num, rec.py.den),
        round_coord(rec.pz.num, rec.pz.den),
    )
}

/// The facts the color recursion needs of a record some scene primitive
/// produced: the point's coordinates are bounded by the world box, the
/// stored normal lies in the unit band, and the material handle lands in
/// the scene's table.
proof fn lemma_scene_rec_facts(s: Scene, r: Ray, lo: Rat, hi: Rat, rec: HitRecord)
    requires
        scene_wf(s),
        ray_wf(r),
        lo.den > 0,
        hi.den > 0,
        scene_hits_at(s.objects@, r, lo, hi, rec),
    ensures
        0 < rec.px.den <= 0x10_0000_0000_0000,
        0 < rec.py.den <= 0x10_0000_0000_0000,
        0 < rec.pz.den <= 0x10_0000_0000_0000,
        -COORD_BOUND * rec.px.den <= rec.px.num <= COORD_BOUND * rec.px.den,
        -COORD_BOUND * rec.py.den <= rec.py.num <= COORD_BOUND * rec.py.den,
        -COORD_BOUND * rec.pz.den <= rec.pz.num <= COORD_BOUND * rec.pz.den,
        unit_dir(rec.normal),
        rec.mat < s.materials@.len(),
        mat_wf(s.materials@[rec.mat as int]),
{
    let p = choose|p: Primitive| #[trigger] s.objects@.contains(p)
        && prim_hit_t(p, r, lo, hi) == Some(rec.t) && rec == prim_hit_rec(p, r, rec.t);
    let j = choose|j: int| 0 <= j < s.objects@.len() && s.objects@[j] == p;
    assert(prim_wf(p));
    lemma_prim_hit_t_props(p, r, lo, hi);
    lemma_prim_aabb_wf(p);
    lemma_hit_rec_normal_unit(p, r, rec.t);
    let bb = prim_aabb(p);
    let t = rec.t;
    assert(rec.px == at_rat(r.orig.x as int, r.dir.x as int, t));
    let qx = at_num(r.orig.x as int, r.dir.x as int, t);
    let qy = at_num(r.orig.y as int, r.dir.y as int, t);
    let qz = at_num(r.orig.z as int, r.dir.z as int, t);
    assert(-COORD_BOUND * t.den <= qx <= COORD_BOUND * t.den) by (nonlinear_arith)
        requires
            t.den > 0,
            -COORD_BOUND <= bb.min.x as int,
            bb.max.x as int <= COORD_BOUND,
            bb.min.x as int * t.den <= qx,
            qx <= bb.max.x as int * t.den,
    ;
    assert(-COORD_BOUND * t.den <= qy <= COORD_BOUND * t.den) by (nonlinear_arith)
        requires
            t.den > 0,
            -COORD_BOUND <= bb.min.y as int,
            bb.max.y as int <= COORD_BOUND,
            bb.min.y as int * t.den <= qy,
            qy <= bb.max.y as int * t.den,
    ;
    assert(-COORD_BOUND * t.den <= qz <= COORD_BOUND * t.den) by (nonlinear_arith)
        requires
            t.den > 0,
            -COORD_BOUND <= bb.min.z as int,
            bb.max.z as int <= COORD_BOUND,
            bb.min.z as int * t.den <= qz,
            qz <= bb.max.z as int * t.den,
    ;
}

/// The color gathered along a ray, bounded by `depth` bounces: black when
/// the budget is spent, the sky gradient of the unit direction's vertical
/// component on a miss, and on a hit the material's attenuation times the
/// color of the scattered ray -- black again where the material absorbs.
pub fn ray_color(scene: &Scene, r: &Ray, depth: u32, data: &mut Data) -> (c: Vec3i)
    requires
        scene_wf(*scene),
        ray_wf(*r),
    ensures
        color_wf(c),
        depth == 0 ==> c == (Vec3i { x: 0, y: 0, z: 0 }),
        depth > 0 && scene_misses(scene.objects@, *r, t_min(), t_sup())
            ==> c == sky_color(unit_of(r.dir).y as int),
    decreases depth,
{
    if depth == 0 {
        return Vec3i::new(0, 0, 0);
    }
    let lo = Rat::new(1, 1000);
    let hi = Rat::new(0x4000_0000_0000_0000, 1);
    proof {
        assert(lo == t_min());
        assert(hi == t_sup());
    }
    let found = scene.hit(r, &lo, &hi, data);
    match found {
        None => {
            let din = unit_scaled(&r.dir);
            sky_from_uy(din.y)
        },
        Some(rec) => {
            proof {
                // A reported hit names a real primitive, so a miss of the
                // whole scene is impossible here.
                let p = choose|p: Primitive| #[trigger] scene.objects@.contains(p)
                    && prim_hit_t(p, *r, lo, hi) == Some(rec.t)
                    && rec == prim_hit_rec(p, *r, rec.t);
                lemma_scene_rec_facts(*scene, *r, lo, hi, rec);
            }
            if rec.hits_aabb_edge {
                return Vec3i::new(CSCALE, 0, 0);
            }
            let m = scene.materials[rec.mat];
            let u = random_unit();
            let sample = random_scaled();
            let s = scatter(&m, r, &rec, u, sample);
            if !s.scattered {
                return Vec3i::new(0, 0, 0);
            }
            data.add_scatter_ray();
            proof {
                assert(color_wf(s.attenuation)) by {
                    match m {
                        Material::Lambertian { albedo } => {},
                        Material::Metal { albedo, .. } => {},
                        Material::Dielectric { .. } => {
                            assert(s.attenuation == white());
                        },
                    }
                }
            }
            let orig = round_point(&rec);
            let r2 = Ray::new(orig, s.direction);
            let rest = ray_color(scene, &r2, depth - 1, data);
            mul_color(&s.attenuation, &rest)
        },
    }
}

/// One 8-bit output channel: the per-sample average of an accumulated
/// channel, tonemapped by the gamma-two square root and quantized.
pub open spec fn gamma_byte(sum: int, samples: int) -> int {
    let avg = sum / samples;
    let g = isq((avg * CSCALE) as nat) as int;
    let q = (g * 256) / (CSCALE as int);
    if q > 255 {
        255
    } else {
        q
    }
}

/// One channel of the final pixel color, executably.
fn gamma_channel(sum: i128, samples: i128) -> (b: u8)
    requires
        1 <= samples,
        0 <= sum <= samples * CSCALE,
    ensures
        b as int == gamma_byte(sum as int, samples as int),
{
    proof {
        lemma_div_le(sum as int, samples as int, CSCALE as int);
    }
    let avg = div_nn(sum, samples);
    proof {
        lemma_mul_bound(avg as int, CSCALE as int, CSCALE as int, CSCALE as int);
        assert(avg * CSCALE >= 0) by (nonlinear_arith)
            requires
                avg >= 0,
                CSCALE == 65536,
        ;
    }
    let g_u = isqrt((avg * CSCALE) as u128);
    proof {
        assert(g_u <= 0x1_0000u128) by (nonlinear_arith)
            requires
                g_u * g_u <= avg * CSCALE,
                0 <= avg * CSCALE <= 0x1_0000_0000,
        ;
    }
    let g = g_u as i128;
    proof {
        lemma_mul_bound(g as int, 256, 0x1_0000, 256);
        assert(g * 256 >= 0) by (nonlinear_arith)
            requires
                g >= 0,
        ;
    }
    let q = div_nn(g * 256, CSCALE);
    proof {
        lemma_div_le((g * 256) as int, CSCALE as int, 0x100);
    }
    if q > 255 {
        255u8
    } else {
        q as u8
    }
}

/// The 8-bit pixel of an accumulated color: per-sample average, gamma-two
/// tonemap, and quantization of each channel.
pub fn color_to_rgb(sum: &Vec3i, samples: usize) -> (rgb: (u8, u8, u8))
    requires
        1 <= samples,
        samples <= 0x1_0000_0000,
        0 <= sum.x <= samples * CSCALE,
        0 <= sum.y <= samples * CSCALE,
        0 <= sum.z <= samples * CSCALE,
    ensures
        rgb.0 as int == gamma_byte(sum.x as int, samples as int),
        rgb.1 as int == gamma_byte(sum.y as int, samples as int),
        rgb.2 as int == gamma_byte(sum.z as int, samples as int),
{
    (
        gamma_channel(sum.x, samples as i128),
        gamma_channel(sum.y, samples as i128),
        gamma_channel(sum.z, samples as i128),
    )
}

/// Accumulate a sample color into a running sum.
pub fn add_color(sum: &Vec3i, c: &Vec3i) -> (r: Vec3i)
    requires
        v3_bounded(*sum, 0x1000_0000_0000_0000),
        color_wf(*c),
    ensures
        r.x == sum.x + c.x && r.y == sum.y + c.y && r.z == sum.z + c.z,
{
    Vec3i::new(sum.x + c.x, sum.y + c.y, sum.z + c.z)
}

} // verus!
