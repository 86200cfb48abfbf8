use rtcore::aabb::AABB;
use rtcore::data::Data;
use rtcore::hit::{HitRecord, Primitive};
use rtcore::hittable_list::hit_range;
use rtcore::material::{scatter, Material, CSCALE};
use rtcore::options::{AlgorithmOptions, IntersectionAlgorithm, Options};
use rtcore::rat::Rat;
use rtcore::ray::Ray;
use rtcore::scene::{color_to_rgb, ray_color, Scene};
use rtcore::vec3i::Vec3i;

fn lo_eps() -> Rat {
    Rat::new(1, 1000)
}

fn hi_inf() -> Rat {
    Rat::new(1 << 50, 1)
}

fn unit_z() -> Vec3i {
    Vec3i::new(0, 0, 4096)
}

fn dummy_rec(normal: Vec3i, front_face: bool) -> HitRecord {
    HitRecord {
        px: Rat::new(0, 1),
        py: Rat::new(0, 1),
        pz: Rat::new(-1000, 1),
        normal,
        mat: 0,
        t: Rat::new(1, 1),
        front_face,
        hits_aabb_edge: false,
    }
}

#[test]
fn tangent_contact_is_no_interval() {
    // A ray that meets the box exactly in one corner: the slab test reports
    // the grazing contact, the enter/exit operation calls it a miss.
    let b = AABB::new(Vec3i::new(0, 0, 0), Vec3i::new(2, 2, 2));
    let r = Ray::new(Vec3i::new(-1, 3, 1), Vec3i::new(1, -3, 0));
    let hit = b.hit(&r, lo_eps(), hi_inf());
    assert!(hit.is_some());
    let (en, ex, _) = hit.unwrap();
    assert_eq!(en.num * ex.den, ex.num * en.den);
    assert!(b.enter_and_exit(&r, lo_eps(), hi_inf()).is_none());
}

#[test]
fn exit_face_reports_axis_and_sign() {
    let b = AABB::new(Vec3i::new(0, 0, 0), Vec3i::new(2, 2, 2));
    let r = Ray::new(Vec3i::new(-1, 1, 1), Vec3i::new(1, 0, 0));
    let (_, _, exit) = b.hit(&r, lo_eps(), hi_inf()).expect("must hit");
    assert_eq!(exit.axis, 0);
    assert_eq!(exit.direction, 1);
    let back = Ray::new(Vec3i::new(3, 1, 1), Vec3i::new(-1, 0, 0));
    let (_, _, exit2) = b.hit(&back, lo_eps(), hi_inf()).expect("must hit");
    assert_eq!(exit2.axis, 0);
    assert_eq!(exit2.direction, -1);
}

#[test]
fn hit_record_normal_is_unit_scale() {
    let s = Primitive::sphere(Vec3i::new(0, 0, -1000), 500, 0);
    let r = Ray::new(Vec3i::new(0, 0, 0), Vec3i::new(0, 0, -1000));
    let mut data = Data::new();
    let objs = vec![s];
    let rec = hit_range(&objs, &r, &lo_eps(), &hi_inf(), 0, 1, &mut data).expect("must hit");
    // The stored normal is the outward unit normal: (0, 0, 1) at scale 4096.
    assert_eq!((rec.normal.x, rec.normal.y, rec.normal.z), (0, 0, 4096));
    assert!(rec.front_face);
}

#[test]
fn lambertian_scatter_adds_unit_sample() {
    let m = Material::lambertian(Vec3i::new(32768, 32768, 32768));
    let r = Ray::new(Vec3i::new(0, 0, 0), Vec3i::new(0, 0, -1000));
    let rec = dummy_rec(unit_z(), true);
    let u = Vec3i::new(4096, 0, 0);
    let s = scatter(&m, &r, &rec, u, 0);
    assert!(s.scattered);
    assert_eq!((s.attenuation.x, s.attenuation.y, s.attenuation.z), (32768, 32768, 32768));
    assert_eq!((s.direction.x, s.direction.y, s.direction.z), (4096, 0, 4096));
}

#[test]
fn lambertian_degenerate_sum_falls_back_to_normal() {
    let m = Material::lambertian(Vec3i::new(100, 200, 300));
    let r = Ray::new(Vec3i::new(0, 0, 0), Vec3i::new(0, 0, -1000));
    let rec = dummy_rec(unit_z(), true);
    let u = Vec3i::new(0, 0, -4096);
    let s = scatter(&m, &r, &rec, u, 0);
    assert!(s.scattered);
    assert_eq!((s.direction.x, s.direction.y, s.direction.z), (0, 0, 4096));
}

#[test]
fn mirror_metal_bounces_off_the_normal() {
    // Fuzz zero: the scattered direction is the quantized mirror image, and
    // it leaves on the outside of the surface.
    let m = Material::metal(Vec3i::new(60000, 60000, 60000), 0);
    let r = Ray::new(Vec3i::new(0, 1000, 0), Vec3i::new(1000, -1000, 0));
    let rec = dummy_rec(Vec3i::new(0, 4096, 0), true);
    let s = scatter(&m, &r, &rec, unit_z(), 0);
    assert!(s.scattered);
    assert!(s.direction.y > 0, "mirror flips the vertical component");
    assert!(s.direction.x > 0, "the horizontal component is kept");
    let dn = s.direction.x * rec.normal.x + s.direction.y * rec.normal.y
        + s.direction.z * rec.normal.z;
    assert!(dn > 0);
}

#[test]
fn dielectric_grazing_ray_totally_reflects() {
    // A grazing ray inside glass: eta sin(theta) > 1, so the dielectric must
    // reflect, never refract.
    let m = Material::dielectric(1536);
    let r = Ray::new(Vec3i::new(0, 0, 0), Vec3i::new(10000, -1000, 0));
    let rec = dummy_rec(Vec3i::new(0, 4096, 0), false);
    let s = scatter(&m, &r, &rec, unit_z(), 30000);
    assert!(s.scattered);
    assert_eq!((s.attenuation.x, s.attenuation.y, s.attenuation.z),
        (CSCALE, CSCALE, CSCALE));
    // The incoming ray travels downward; its reflection travels upward.  A
    // refracted ray would keep going down.
    assert!(s.direction.y > 0, "grazing contact must reflect, got {:?}", s.direction);
}

#[test]
fn dielectric_head_on_ray_refracts_through() {
    let m = Material::dielectric(1536);
    let r = Ray::new(Vec3i::new(0, 0, 0), Vec3i::new(0, 0, -10000));
    let rec = dummy_rec(unit_z(), true);
    // A head-on hit has tiny reflectance; a large sample refracts.
    let s = scatter(&m, &r, &rec, unit_z(), 60000);
    assert!(s.scattered);
    assert!(s.direction.z < 0, "head-on ray passes through, got {:?}", s.direction);
}

#[test]
fn sky_gradient_bounds_ray_color() {
    let scene = Scene::new_linear(Vec::new(), Vec::new());
    let mut data = Data::new();
    let up = Ray::new(Vec3i::new(0, 0, 0), Vec3i::new(0, 1000, 0));
    let c_up = ray_color(&scene, &up, 8, &mut data);
    assert_eq!((c_up.x, c_up.y, c_up.z), (32768, 45875, 65536));
    let down = Ray::new(Vec3i::new(0, 0, 0), Vec3i::new(0, -1000, 0));
    let c_down = ray_color(&scene, &down, 8, &mut data);
    assert_eq!((c_down.x, c_down.y, c_down.z), (65536, 65536, 65536));
    let spent = ray_color(&scene, &up, 0, &mut data);
    assert_eq!((spent.x, spent.y, spent.z), (0, 0, 0));
}

#[test]
fn scene_dispatch_agrees_across_structures() {
    let mut objects = Vec::new();
    for i in 0..6i128 {
        objects.push(Primitive::sphere(
            Vec3i::new(900 * i - 2500, 0, -2000 - 300 * i),
            400,
            0,
        ));
    }
    let materials = vec![Material::lambertian(Vec3i::new(32768, 32768, 32768))];
    let options = Options::new(IntersectionAlgorithm::BVH,
        vec![AlgorithmOptions::BvhSahPosition], false, 1000, None);
    let lin = Scene::new_linear(objects.clone(), materials.clone());
    let tree = Scene::new_bvh(objects.clone(), materials.clone(), &options);
    let grid = Scene::new_grid(objects.clone(), materials.clone(),
        Vec3i::new(1000, 1000, 1000), Vec3i::new(-6000, -6000, -6000),
        Vec3i::new(6000, 6000, 6000));
    for dx in -8..8i128 {
        let r = Ray::new(Vec3i::new(0, 0, 500), Vec3i::new(100 * dx, 0, -1000));
        let mut d1 = Data::new();
        let mut d2 = Data::new();
        let mut d3 = Data::new();
        let a = lin.hit(&r, &lo_eps(), &hi_inf(), &mut d1);
        let b = tree.hit(&r, &lo_eps(), &hi_inf(), &mut d2);
        let c = grid.hit(&r, &lo_eps(), &hi_inf(), &mut d3);
        assert_eq!(a.is_some(), b.is_some());
        assert_eq!(a.is_some(), c.is_some());
        if let (Some(x), Some(y), Some(z)) = (a, b, c) {
            assert_eq!(x.t.num * y.t.den, y.t.num * x.t.den);
            assert_eq!(x.t.num * z.t.den, z.t.num * x.t.den);
        }
    }
}

#[test]
fn pixel_quantization_is_exact() {
    let sum = Vec3i::new(65536, 16384, 0);
    let (r, g, b) = color_to_rgb(&sum, 1);
    assert_eq!((r, g, b), (255, 128, 0));
    // Averaging four samples of a quarter-bright channel: avg 16384,
    // sqrt(16384 * 65536) = 32768, and 32768 * 256 / 65536 = 128.
    let sum4 = Vec3i::new(4 * 16384, 0, 4 * 65536);
    let (r4, g4, b4) = color_to_rgb(&sum4, 4);
    assert_eq!((r4, g4, b4), (128, 0, 255));
}

#[test]
fn voxel_addressing_is_bounds_checked() {
    let objs = vec![Primitive::sphere(Vec3i::new(500, 500, 500), 400, 0)];
    let grid = rtcore::grid::Grid::new(
        objs,
        Vec3i::new(1000, 1000, 1000),
        Vec3i::new(-2000, -2000, -2000),
        Vec3i::new(2000, 2000, 2000),
    );
    assert_eq!(grid.point_to_voxel(&Vec3i::new(500, 500, 500)), Some((2, 2, 2)));
    assert_eq!(grid.point_to_voxel(&Vec3i::new(-2000, 0, 1999)), Some((0, 2, 3)));
    assert_eq!(grid.point_to_voxel(&Vec3i::new(2500, 0, 0)), None);
    assert_eq!(grid.xyz_to_index(2, 2, 2), 2 + 2 * 4 + 2 * 16);
}
