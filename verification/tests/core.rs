use rtcore::aabb::AABB;
use rtcore::bvh::Bvh;
use rtcore::data::Data;
use rtcore::grid::Grid;
use rtcore::hit::Primitive;
use rtcore::hittable_list::hit_range;
use rtcore::material::{reflect, Material, MaterialType};
use rtcore::options::{check_valid_options, AlgorithmOptions, IntersectionAlgorithm, Options};
use rtcore::rat::Rat;
use rtcore::ray::Ray;
use rtcore::vec3i::Vec3i;
use rtcore::voxel::{IntBox, IntPoint};

fn lo_eps() -> Rat {
    Rat::new(1, 1000)
}

fn hi_inf() -> Rat {
    Rat::new(1 << 50, 1)
}

fn rat_eq(a: &Rat, b: &Rat) -> bool {
    a.num * b.den == b.num * a.den
}

/// A small deterministic generator so scenes are reproducible.
struct Lcg(u64);

impl Lcg {
    fn next(&mut self) -> u64 {
        self.0 = self.0.wrapping_mul(6364136223846793005).wrapping_add(1442695040888963407);
        self.0 >> 33
    }

    fn range(&mut self, lo: i128, hi: i128) -> i128 {
        lo + (self.next() as i128) % (hi - lo)
    }
}

#[test]
fn union_commutes_and_associates() {
    let a = AABB::new(Vec3i::new(-3, -2, -1), Vec3i::new(4, 5, 6));
    let b = AABB::new(Vec3i::new(0, -9, 2), Vec3i::new(1, 1, 9));
    let c = AABB::new(Vec3i::new(-7, 0, 0), Vec3i::new(0, 0, 3));
    let ab = a.add(&b);
    let ba = b.add(&a);
    assert_eq!(ab.min, ba.min);
    assert_eq!(ab.max, ba.max);
    let ab_c = a.add(&b).add(&c);
    let a_bc = a.add(&b.add(&c));
    assert_eq!(ab_c.min, a_bc.min);
    assert_eq!(ab_c.max, a_bc.max);
}

#[test]
fn int_box_membership() {
    let b = IntBox::new(IntPoint::new(0, 0, 0), IntPoint::new(2, 2, 2));
    assert!(b.is_inside(IntPoint::new(1, 2, 0)));
    assert!(!b.is_inside(IntPoint::new(3, 1, 1)));
}

#[test]
fn sphere_head_on_hit() {
    // A sphere half a unit in radius, one unit down the axis; everything at
    // a fixed-point scale of 1000 units per world unit.
    let s = Primitive::sphere(Vec3i::new(0, 0, -1000), 500, 0);
    let r = Ray::new(Vec3i::new(0, 0, 0), Vec3i::new(0, 0, -1000));
    let mut data = Data::new();
    let objs = vec![s];
    let rec = hit_range(&objs, &r, &lo_eps(), &hi_inf(), 0, 1, &mut data).expect("must hit");
    // t == 1/2 exactly.
    assert_eq!(rec.t.num * 2, rec.t.den);
    assert!(rec.front_face);
    // The hit point is at z == -1/2 unit.
    assert_eq!(rec.pz.num, -500 * rec.pz.den);
    // The outward normal faces back along the ray.
    assert!(rec.normal.z > 0);
}

#[test]
fn sphere_hit_point_in_own_box() {
    let s = Primitive::sphere(Vec3i::new(0, 0, -1000), 500, 0);
    let r = Ray::new(Vec3i::new(10, -20, 0), Vec3i::new(0, 0, -1000));
    let mut data = Data::new();
    let objs = vec![s];
    let rec = hit_range(&objs, &r, &lo_eps(), &hi_inf(), 0, 1, &mut data).expect("must hit");
    let bb = s.to_aabb();
    assert!(bb.contains_rat_point(&rec.px, &rec.py, &rec.pz));
}

#[test]
fn triangle_front_and_back_face() {
    let v0 = Vec3i::new(100, 0, -200);
    let v1 = Vec3i::new(-100, 0, -200);
    let v2 = Vec3i::new(0, 150, -200);
    let t = Primitive::triangle(v0, v1, v2, 0);
    let objs = vec![t];
    let mut data = Data::new();
    let fwd = Ray::new(Vec3i::new(0, 50, 0), Vec3i::new(0, 0, -100));
    let rec = hit_range(&objs, &fwd, &lo_eps(), &hi_inf(), 0, 1, &mut data).expect("must hit");
    // The plane sits two units away.
    assert_eq!(rec.t.num, 2 * rec.t.den);
    let back = Ray::new(Vec3i::new(0, 50, -400), Vec3i::new(0, 0, 100));
    let rec2 = hit_range(&objs, &back, &lo_eps(), &hi_inf(), 0, 1, &mut data).expect("must hit");
    // The same winding is struck from the two sides with opposite flags.
    assert_ne!(rec.front_face, rec2.front_face);
}

fn random_sphere_scene(n: usize, seed: u64) -> Vec<Primitive> {
    let mut g = Lcg(seed);
    let mut objs = Vec::new();
    for _ in 0..n {
        let c = Vec3i::new(g.range(-5000, 5000), g.range(-5000, 5000), g.range(-5000, 5000));
        objs.push(Primitive::sphere(c, 200, 0));
    }
    objs
}

fn sah_options() -> Options {
    Options::new(IntersectionAlgorithm::BVH, vec![AlgorithmOptions::BvhSahPosition], false, 1000,
        None)
}

#[test]
fn bvh_agrees_with_linear_scan() {
    let objs = random_sphere_scene(120, 7);
    let bvh = Bvh::new(objs.clone(), &sah_options());
    let mut g = Lcg(99);
    let mut hits = 0usize;
    for _ in 0..400 {
        let d = Vec3i::new(g.range(-600, 600), g.range(-600, 600), g.range(-1200, -300));
        let r = Ray::new(Vec3i::new(0, 0, 10000), d);
        let mut d1 = Data::new();
        let mut d2 = Data::new();
        let lin = hit_range(&objs, &r, &lo_eps(), &hi_inf(), 0, objs.len(), &mut d1);
        let tree = bvh.hit(&r, &lo_eps(), &hi_inf(), &mut d2);
        assert_eq!(lin.is_some(), tree.is_some());
        if let (Some(a), Some(b)) = (lin, tree) {
            assert!(rat_eq(&a.t, &b.t));
            hits += 1;
        }
    }
    assert!(hits > 0);
}

#[test]
fn grid_agrees_with_linear_scan() {
    let objs = random_sphere_scene(60, 21);
    let grid = Grid::new(
        objs.clone(),
        Vec3i::new(1000, 1000, 1000),
        Vec3i::new(-6000, -6000, -6000),
        Vec3i::new(6000, 6000, 6000),
    );
    let mut g = Lcg(5);
    let mut hits = 0usize;
    for _ in 0..300 {
        let d = Vec3i::new(g.range(-700, 700), g.range(-700, 700), g.range(-1300, -400));
        let r = Ray::new(Vec3i::new(0, 0, 5500), d);
        let mut d1 = Data::new();
        let mut d2 = Data::new();
        let lin = hit_range(&objs, &r, &lo_eps(), &hi_inf(), 0, objs.len(), &mut d1);
        let walked = grid.hit(&r, &lo_eps(), &hi_inf(), &mut d2);
        assert_eq!(lin.is_some(), walked.is_some());
        if let (Some(a), Some(b)) = (lin, walked) {
            assert!(rat_eq(&a.t, &b.t));
            hits += 1;
        }
        // The walk never exceeds its step budget.
        assert!(d2.traversal_steps() <= grid.nx + grid.ny + grid.nz);
    }
    assert!(hits > 0);
}

#[test]
fn grid_buckets_are_exact() {
    let objs = vec![
        Primitive::sphere(Vec3i::new(500, 500, 500), 400, 0),
        Primitive::sphere(Vec3i::new(-1500, -1500, -1500), 300, 0),
    ];
    let grid = Grid::new(
        objs.clone(),
        Vec3i::new(1000, 1000, 1000),
        Vec3i::new(-2000, -2000, -2000),
        Vec3i::new(2000, 2000, 2000),
    );
    for (v, gb) in grid.boxes.iter().enumerate() {
        for (o, p) in objs.iter().enumerate() {
            let should = p.to_aabb().inside(&gb.aabb);
            let listed = gb.objects.contains(&o);
            assert_eq!(should, listed, "voxel {v} object {o}");
        }
    }
}

#[test]
fn sah_beats_naive_beats_linear() {
    // A 10 x 10 x 5 lattice of unit spheres, two units apart.
    let mut objs = Vec::new();
    for i in 0..10i128 {
        for j in 0..10i128 {
            for k in 0..5i128 {
                let c = Vec3i::new(2000 * i - 9000, 2000 * j - 9000, -2000 * k - 3000);
                objs.push(Primitive::sphere(c, 1000, 0));
            }
        }
    }
    let naive_opts = Options::new(IntersectionAlgorithm::BVH, vec![AlgorithmOptions::BvhNaive],
        false, 1000, None);
    let bvh_naive = Bvh::new(objs.clone(), &naive_opts);
    let bvh_sah = Bvh::new(objs.clone(), &sah_options());
    let mut g = Lcg(3);
    let mut checks_lin = 0usize;
    let mut checks_naive = 0usize;
    let mut checks_sah = 0usize;
    for _ in 0..400 {
        let d = Vec3i::new(g.range(-900, 900), g.range(-900, 900), g.range(-1500, -500));
        let r = Ray::new(Vec3i::new(0, 0, 8000), d);
        let mut d1 = Data::new();
        let mut d2 = Data::new();
        let mut d3 = Data::new();
        let _ = hit_range(&objs, &r, &lo_eps(), &hi_inf(), 0, objs.len(), &mut d1);
        let _ = bvh_naive.hit(&r, &lo_eps(), &hi_inf(), &mut d2);
        let _ = bvh_sah.hit(&r, &lo_eps(), &hi_inf(), &mut d3);
        checks_lin += d1.intersection_checks();
        checks_naive += d2.intersection_checks();
        checks_sah += d3.intersection_checks();
    }
    assert!(checks_sah < checks_naive, "sah {checks_sah} naive {checks_naive}");
    assert!(checks_naive < checks_lin, "naive {checks_naive} linear {checks_lin}");
}

#[test]
fn reflect_matches_mirror_law() {
    let d = Vec3i::new(4096, -409, 0);
    let n = Vec3i::new(0, 4096, 0);
    let r = reflect(&d, &n);
    let dn = d.x * n.x + d.y * n.y + d.z * n.z;
    let nn = n.x * n.x + n.y * n.y + n.z * n.z;
    let rn = r.x * n.x + r.y * n.y + r.z * n.z;
    assert_eq!(rn, -(dn * nn));
}

#[test]
fn material_kinds_report() {
    let l = Material::lambertian(Vec3i::new(32768, 32768, 32768));
    let m = Material::metal(Vec3i::new(30000, 30000, 30000), 70000);
    let di = Material::dielectric(1536);
    assert_eq!(l.get_type(), MaterialType::Lambertian);
    assert_eq!(m.get_type(), MaterialType::Metal);
    assert_eq!(di.get_type(), MaterialType::Dielectric);
}

#[test]
fn option_combinations_are_checked() {
    let ok = vec![AlgorithmOptions::BvhSahPosition, AlgorithmOptions::DrawBoxes];
    assert!(check_valid_options(&ok).is_none());
    let bad = vec![AlgorithmOptions::BvhNaive, AlgorithmOptions::BvhSahPlane];
    assert!(check_valid_options(&bad).is_some());
}

#[test]
fn repeat_traversal_is_identical() {
    let objs = random_sphere_scene(40, 11);
    let bvh = Bvh::new(objs.clone(), &sah_options());
    let r = Ray::new(Vec3i::new(0, 0, 9000), Vec3i::new(37, -18, -1000));
    let mut d1 = Data::new();
    let mut d2 = Data::new();
    let a = bvh.hit(&r, &lo_eps(), &hi_inf(), &mut d1);
    let b = bvh.hit(&r, &lo_eps(), &hi_inf(), &mut d2);
    assert_eq!(a.is_some(), b.is_some());
    if let (Some(x), Some(y)) = (a, b) {
        assert_eq!(x.t.num, y.t.num);
        assert_eq!(x.t.den, y.t.den);
        assert_eq!(x.front_face, y.front_face);
    }
}
