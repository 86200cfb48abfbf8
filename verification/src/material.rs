//! Materials in fixed point: diffuse, metallic and dielectric scattering.
//! Randomness comes in as arguments (an approximately-unit direction and a
//! uniform sample), so scattering itself is a deterministic function, stated
//! exactly by spec functions over the quantized unit scale.

use vstd::prelude::*;
use crate::hit::HitRecord;
use crate::num::{isq, isqrt, lemma_mul_bound};
use crate::rat::NUM_BOUND;
use crate::ray::{Ray, ray_wf};
use crate::rng::random_in_range;
use crate::unit::{USCALE, unit_dir, unit_of, unit_scaled, sdiv, div_tz, clampi, clamp_mag};
use crate::vec3i::{Vec3i, v3_bounded, sdot, COORD_BOUND};

verus! {

/// Fixed-point scale of color channels: this value stands for 1.0.
pub const CSCALE: i128 = 65536;

/// Fixed-point scale of refraction indices.
pub const RSCALE: i128 = 1024;

/// The kind of a material.
#[derive(Clone, Copy, PartialEq, Eq, Structural, Debug)]
pub enum MaterialType {
    Lambertian,
    Metal,
    Dielectric,
}

/// A material: colors are fixed-point channel triples in `[0, CSCALE]`,
/// fuzz lies in `[0, CSCALE]`, the refraction index is scaled by `RSCALE`.
#[derive(Clone, Copy, Debug)]
pub enum Material {
    Lambertian { albedo: Vec3i },
    Metal { albedo: Vec3i, fuzz: i128 },
    Dielectric { refraction_index: i128 },
}

/// A color triple within the channel range.
pub open spec fn color_wf(c: Vec3i) -> bool {
    0 <= c.x <= CSCALE && 0 <= c.y <= CSCALE && 0 <= c.z <= CSCALE
}

/// Well-formed material.
pub open spec fn mat_wf(m: Material) -> bool {
    match m {
        Material::Lambertian { albedo } => color_wf(albedo),
        Material::Metal { albedo, fuzz } => color_wf(albedo) && 0 <= fuzz <= CSCALE,
        Material::Dielectric { refraction_index } => 1 <= refraction_index <= 0x10_0000,
    }
}

impl Material {
    pub fn lambertian(albedo: Vec3i) -> (m: Material)
        requires
            color_wf(albedo),
        ensures
            m == (Material::Lambertian { albedo }),
            mat_wf(m),
    {
        Material::Lambertian { albedo }
    }

    /// Fuzz beyond the unit is clamped, as a fully fuzzy metal.
    pub fn metal(albedo: Vec3i, fuzz: i128) -> (m: Material)
        requires
            color_wf(albedo),
            fuzz >= 0,
        ensures
            m == (Material::Metal { albedo, fuzz: if fuzz < CSCALE { fuzz } else { CSCALE } }),
            mat_wf(m),
    {
        Material::Metal { albedo, fuzz: if fuzz < CSCALE { fuzz } else { CSCALE } }
    }

    pub fn dielectric(refraction_index: i128) -> (m: Material)
        requires
            1 <= refraction_index <= 0x10_0000,
        ensures
            m == (Material::Dielectric { refraction_index }),
            mat_wf(m),
    {
        Material::Dielectric { refraction_index }
    }

    /// The kind of this material.
    pub fn get_type(&self) -> (t: MaterialType)
        ensures
            t == (match *self {
                Material::Lambertian { .. } => MaterialType::Lambertian,
                Material::Metal { .. } => MaterialType::Metal,
                Material::Dielectric { .. } => MaterialType::Dielectric,
            }),
    {
        match self {
            Material::Lambertian { .. } => MaterialType::Lambertian,
            Material::Metal { .. } => MaterialType::Metal,
            Material::Dielectric { .. } => MaterialType::Dielectric,
        }
    }
}

/// Reflection scaled by the squared normal length:
/// `d * (n . n) - 2 (d . n) n`, which points along the mirror reflection of
/// `d` about the plane with normal `n` without any division.
pub open spec fn reflect_spec(d: Vec3i, n: Vec3i) -> Vec3i {
    Vec3i {
        x: (d.x * sdot(n, n) - 2 * (sdot(d, n) * n.x)) as i128,
        y: (d.y * sdot(n, n) - 2 * (sdot(d, n) * n.y)) as i128,
        z: (d.z * sdot(n, n) - 2 * (sdot(d, n) * n.z)) as i128,
    }
}

/// The mirror law: the reflected direction meets the normal with the
/// opposite (scaled) incidence, `reflect(d, n) . n == -(d . n) (n . n)`.
#[verifier::rlimit(60)]
pub proof fn lemma_reflect_law(d: Vec3i, n: Vec3i)
    requires
        v3_bounded(d, 16384),
        v3_bounded(n, 16384),
    ensures
        sdot(reflect_spec(d, n), n) == -(sdot(d, n) * sdot(n, n)),
{
    let nn = sdot(n, n);
    let dn = sdot(d, n);
    assert(0 <= nn <= 0x3000_0000 && -0x3000_0000 <= dn <= 0x3000_0000)
        by (nonlinear_arith)
        requires
            v3_bounded(d, 16384),
            v3_bounded(n, 16384),
            nn == sdot(n, n),
            dn == sdot(d, n),
    ;
    assert((d.x * nn - 2 * (dn * n.x)) * n.x
        == nn * (d.x * n.x) - 2 * (dn * (n.x * n.x))) by (nonlinear_arith);
    assert((d.y * nn - 2 * (dn * n.y)) * n.y
        == nn * (d.y * n.y) - 2 * (dn * (n.y * n.y))) by (nonlinear_arith);
    assert((d.z * nn - 2 * (dn * n.z)) * n.z
        == nn * (d.z * n.z) - 2 * (dn * (n.z * n.z))) by (nonlinear_arith);
    assert(nn * (d.x * n.x) + nn * (d.y * n.y) + nn * (d.z * n.z) == nn * dn)
        by (nonlinear_arith)
        requires
            dn == d.x * n.x + d.y * n.y + d.z * n.z,
    ;
    assert(2 * (dn * (n.x * n.x)) + 2 * (dn * (n.y * n.y)) + 2 * (dn * (n.z * n.z))
        == 2 * (dn * nn)) by (nonlinear_arith)
        requires
            nn == n.x * n.x + n.y * n.y + n.z * n.z,
    ;
    assert(nn * dn - 2 * (dn * nn) == -(dn * nn)) by (nonlinear_arith);
    lemma_mul_bound(d.x as int, nn as int, 16384, 0x3000_0000);
    lemma_mul_bound(d.y as int, nn as int, 16384, 0x3000_0000);
    lemma_mul_bound(d.z as int, nn as int, 16384, 0x3000_0000);
    lemma_mul_bound(dn as int, n.x as int, 0x3000_0000, 16384);
    lemma_mul_bound(dn as int, n.y as int, 0x3000_0000, 16384);
    lemma_mul_bound(dn as int, n.z as int, 0x3000_0000, 16384);
    let rs = reflect_spec(d, n);
    assert(rs.x == d.x * nn - 2 * (dn * n.x));
    assert(rs.y == d.y * nn - 2 * (dn * n.y));
    assert(rs.z == d.z * nn - 2 * (dn * n.z));
    assert(sdot(rs, n) == rs.x * n.x + rs.y * n.y + rs.z * n.z);
}

/// Executable reflection at unit scale.
pub fn reflect(d: &Vec3i, n: &Vec3i) -> (r: Vec3i)
    requires
        v3_bounded(*d, 16384),
        v3_bounded(*n, 16384),
    ensures
        r == reflect_spec(*d, *n),
        v3_bounded(r, 0x1_0000_0000_0000_0000),
{
    let nn = d_bound_dot(n, n);
    let dn = d_bound_dot(d, n);
    proof {
        lemma_mul_bound(d.x as int, nn as int, 16384, 0x3000_0000);
        lemma_mul_bound(d.y as int, nn as int, 16384, 0x3000_0000);
        lemma_mul_bound(d.z as int, nn as int, 16384, 0x3000_0000);
        lemma_mul_bound(dn as int, n.x as int, 0x3000_0000, 16384);
        lemma_mul_bound(dn as int, n.y as int, 0x3000_0000, 16384);
        lemma_mul_bound(dn as int, n.z as int, 0x3000_0000, 16384);
    }
    Vec3i::new(
        d.x * nn - 2 * (dn * n.x),
        d.y * nn - 2 * (dn * n.y),
        d.z * nn - 2 * (dn * n.z),
    )
}

/// Dot product of small direction vectors, with a tight bound.
fn d_bound_dot(a: &Vec3i, b: &Vec3i) -> (r: i128)
    requires
        v3_bounded(*a, 16384),
        v3_bounded(*b, 16384),
    ensures
        r == sdot(*a, *b),
        -0x3000_0000 <= r <= 0x3000_0000,
{
    proof {
        assert((16384int) * (16384int) == 268435456int) by (nonlinear_arith);
        lemma_mul_bound(a.x as int, b.x as int, 16384, 16384);
        lemma_mul_bound(a.y as int, b.y as int, 16384, 16384);
        lemma_mul_bound(a.z as int, b.z as int, 16384, 16384);
    }
    a.x * b.x + a.y * b.y + a.z * b.z
}

/// A direction drawn approximately uniformly on the unit sphere, by
/// rejection sampling at the unit scale; after a bounded number of tries a
/// fixed axis is returned so the function always terminates.
pub fn random_unit() -> (u: Vec3i)
    ensures
        unit_dir(u),
{
    let mut tries: u8 = 0;
    while tries < 32
        invariant
            true,
        decreases 32 - tries,
    {
        let x = random_in_range(-4096, 4097) as i128;
        let y = random_in_range(-4096, 4097) as i128;
        let z = random_in_range(-4096, 4097) as i128;
        let p = Vec3i::new(x, y, z);
        proof {
            lemma_mul_bound(p.x as int, p.x as int, 4096, 4096);
            lemma_mul_bound(p.y as int, p.y as int, 4096, 4096);
            lemma_mul_bound(p.z as int, p.z as int, 4096, 4096);
        }
        let n2 = p.x * p.x + p.y * p.y + p.z * p.z;
        if n2 > 16 && n2 <= USCALE * USCALE {
            let u = unit_scaled(&p);
            return u;
        }
        tries = tries + 1;
    }
    let fallback = Vec3i::new(USCALE, 0, 0);
    proof {
        assert(unit_dir(fallback)) by (nonlinear_arith)
            requires
                fallback.x == USCALE && fallback.y == 0 && fallback.z == 0,
                USCALE == 4096,
        ;
    }
    fallback
}

/// A uniform fixed-point sample in `[0, CSCALE)`.
pub fn random_scaled() -> (r: i128)
    ensures
        0 <= r < CSCALE,
{
    random_in_range(0, 65536) as i128
}

/// What a material does with an incoming ray: whether it scatters, the
/// color it attenuates by, and the new direction.
#[derive(Clone, Copy, Debug)]
pub struct ScatterResult {
    pub scattered: bool,
    pub attenuation: Vec3i,
    pub direction: Vec3i,
}

/// Full white: the dielectric attenuation.
pub open spec fn white() -> Vec3i {
    Vec3i { x: CSCALE, y: CSCALE, z: CSCALE }
}

/// Componentwise sum.
pub open spec fn vadd(a: Vec3i, b: Vec3i) -> Vec3i {
    Vec3i { x: (a.x + b.x) as i128, y: (a.y + b.y) as i128, z: (a.z + b.z) as i128 }
}

/// The diffuse direction: the unit normal plus a random unit vector, with
/// the degenerate exact-zero sum replaced by the normal itself.
pub open spec fn lambertian_dir(normal: Vec3i, u: Vec3i) -> Vec3i {
    let d = vadd(normal, u);
    if d.x == 0 && d.y == 0 && d.z == 0 {
        normal
    } else {
        d
    }
}

/// The mirror direction of `d` about `n`, brought back to d's own scale by
/// the quantized division, each component clamped into a safe band.
pub open spec fn reflect_unit_spec(d: Vec3i, n: Vec3i) -> Vec3i {
    let nn = sdot(n, n);
    if nn <= 0 {
        d
    } else {
        let dn = sdot(d, n);
        Vec3i {
            x: clampi(sdiv(d.x * nn - 2 * (dn * n.x), nn), 0x20_0000) as i128,
            y: clampi(sdiv(d.y * nn - 2 * (dn * n.y), nn), 0x20_0000) as i128,
            z: clampi(sdiv(d.z * nn - 2 * (dn * n.z), nn), 0x20_0000) as i128,
        }
    }
}

/// A color-scale fraction of a vector: `f / CSCALE` of each component.
pub open spec fn scale_frac(f: i128, u: Vec3i) -> Vec3i {
    Vec3i {
        x: sdiv(f * u.x, CSCALE as int) as i128,
        y: sdiv(f * u.y, CSCALE as int) as i128,
        z: sdiv(f * u.z, CSCALE as int) as i128,
    }
}

/// The fuzzy metallic direction: the quantized mirror of the unit incoming
/// direction, perturbed by `fuzz` of a random unit vector.
pub open spec fn metal_dir(r_dir: Vec3i, normal: Vec3i, fuzz: i128, u: Vec3i) -> Vec3i {
    vadd(reflect_unit_spec(unit_of(r_dir), normal), scale_frac(fuzz, u))
}

/// Total internal reflection: `eta^2 sin^2 theta > 1`, cleared of square
/// roots with `eta = a / b` and `sin^2 = 1 - (d.n)^2 / ((d.d)(n.n))`.
pub open spec fn tir(a: int, b: int, dd: int, nn: int, dn: int) -> bool {
    a * a * (dd * nn - dn * dn) > b * b * (dd * nn)
}

/// The incidence cosine at color scale, clamped into `[0, CSCALE]`.
pub open spec fn cos_fp_of(dd: int, nn: int, dn: int) -> int {
    let ell2 = isq((dd * nn) as nat) as int;
    if ell2 <= 0 {
        CSCALE as int
    } else {
        let c = sdiv(-dn * (CSCALE as int), ell2);
        if c < 0 {
            0
        } else if c > CSCALE {
            CSCALE as int
        } else {
            c
        }
    }
}

/// Schlick's reflectance at color scale, from the index ratio `a / b` and a
/// cosine at color scale.
pub open spec fn schlick(a: int, b: int, cos_fp: int) -> int {
    let r0 = sdiv((a - b) * (a - b) * (CSCALE as int), (a + b) * (a + b));
    let m = CSCALE as int - cos_fp;
    let m5 = sdiv(m * m * m * m * m,
        (CSCALE as int) * (CSCALE as int) * (CSCALE as int) * (CSCALE as int));
    r0 + sdiv((CSCALE as int - r0) * m5, CSCALE as int)
}

/// The refracted direction of a unit incoming direction, at the unit scale,
/// with each intermediate clamped into a safe band.
pub open spec fn refract_unit_spec(d: Vec3i, n: Vec3i, a: int, b: int) -> Vec3i {
    let nn = sdot(n, n);
    let dn = sdot(d, n);
    if nn <= 0 || b <= 0 {
        d
    } else {
        let px = clampi(d.x + sdiv(-dn * n.x, nn), 0x20_0000);
        let py = clampi(d.y + sdiv(-dn * n.y, nn), 0x20_0000);
        let pz = clampi(d.z + sdiv(-dn * n.z, nn), 0x20_0000);
        let rx = clampi(sdiv(a * px, b), 0x20_0000);
        let ry = clampi(sdiv(a * py, b), 0x20_0000);
        let rz = clampi(sdiv(a * pz, b), 0x20_0000);
        let rp2 = rx * rx + ry * ry + rz * rz;
        let dd = sdot(d, d);
        let par2 = if rp2 >= dd {
            0
        } else {
            dd - rp2
        };
        let kpar = isq(par2 as nat) as int;
        let elln = isq(nn as nat) as int;
        if elln <= 0 {
            Vec3i { x: rx as i128, y: ry as i128, z: rz as i128 }
        } else {
            Vec3i {
                x: (rx - sdiv(kpar * n.x, elln)) as i128,
                y: (ry - sdiv(kpar * n.y, elln)) as i128,
                z: (rz - sdiv(kpar * n.z, elln)) as i128,
            }
        }
    }
}

/// A scattered direction fit for a ray: the degenerate zero vector and any
/// component outside the world bound fall back to the surface normal.
pub open spec fn dir_or_normal(d: Vec3i, normal: Vec3i) -> Vec3i {
    if (d.x == 0 && d.y == 0 && d.z == 0) || d.x > COORD_BOUND || d.x < -COORD_BOUND
        || d.y > COORD_BOUND || d.y < -COORD_BOUND || d.z > COORD_BOUND
        || d.z < -COORD_BOUND {
        normal
    } else {
        d
    }
}

/// What scattering returns, exactly, for each material kind, given the
/// incoming ray, the hit record, a random unit direction and a uniform
/// color-scale sample.
pub open spec fn scatter_spec(m: Material, r: Ray, rec: HitRecord, u: Vec3i, sample: i128)
    -> ScatterResult {
    match m {
        Material::Lambertian { albedo } => ScatterResult {
            scattered: true,
            attenuation: albedo,
            direction: lambertian_dir(rec.normal, u),
        },
        Material::Metal { albedo, fuzz } => {
            let d = metal_dir(r.dir, rec.normal, fuzz, u);
            ScatterResult {
                scattered: sdot(d, rec.normal) > 0 && v3_bounded(d, COORD_BOUND as int),
                attenuation: albedo,
                direction: d,
            }
        },
        Material::Dielectric { refraction_index } => {
            let din = unit_of(r.dir);
            let dd = sdot(din, din);
            let nn = sdot(rec.normal, rec.normal);
            let dn = sdot(din, rec.normal);
            let a = if rec.front_face {
                RSCALE as int
            } else {
                refraction_index as int
            };
            let b = if rec.front_face {
                refraction_index as int
            } else {
                RSCALE as int
            };
            let d0 = if tir(a, b, dd, nn, dn) || schlick(a, b, cos_fp_of(dd, nn, dn)) > sample {
                reflect_unit_spec(din, rec.normal)
            } else {
                refract_unit_spec(din, rec.normal, a, b)
            };
            ScatterResult {
                scattered: true,
                attenuation: white(),
                direction: dir_or_normal(d0, rec.normal),
            }
        },
    }
}

/// The quantized mirror direction, executably.
fn reflect_unit(d: &Vec3i, n: &Vec3i) -> (r: Vec3i)
    requires
        v3_bounded(*d, 2 * USCALE),
        v3_bounded(*n, 2 * USCALE),
    ensures
        r == reflect_unit_spec(*d, *n),
        v3_bounded(r, 0x20_0000),
{
    let nn = d_bound_dot(n, n);
    if nn <= 0 {
        proof {
            assert(v3_bounded(*d, 0x20_0000));
        }
        return Vec3i::new(d.x, d.y, d.z);
    }
    let dn = d_bound_dot(d, n);
    proof {
        lemma_mul_bound(d.x as int, nn as int, 2 * USCALE as int, 0x3000_0000);
        lemma_mul_bound(d.y as int, nn as int, 2 * USCALE as int, 0x3000_0000);
        lemma_mul_bound(d.z as int, nn as int, 2 * USCALE as int, 0x3000_0000);
        lemma_mul_bound(dn as int, n.x as int, 0x3000_0000, 2 * USCALE as int);
        lemma_mul_bound(dn as int, n.y as int, 0x3000_0000, 2 * USCALE as int);
        lemma_mul_bound(dn as int, n.z as int, 0x3000_0000, 2 * USCALE as int);
    }
    Vec3i::new(
        clamp_mag(div_tz(d.x * nn - 2 * (dn * n.x), nn), 0x20_0000),
        clamp_mag(div_tz(d.y * nn - 2 * (dn * n.y), nn), 0x20_0000),
        clamp_mag(div_tz(d.z * nn - 2 * (dn * n.z), nn), 0x20_0000),
    )
}

/// Scatter an incoming ray off a material: exactly `scatter_spec`, and a
/// scattered direction is always a nonzero vector within the world bound.
pub fn scatter(m: &Material, r_in: &Ray, rec: &HitRecord, u: Vec3i, sample: i128)
    -> (s: ScatterResult)
    requires
        mat_wf(*m),
        ray_wf(*r_in),
        unit_dir(rec.normal),
        unit_dir(u),
        0 <= sample < CSCALE,
    ensures
        s == scatter_spec(*m, *r_in, *rec, u, sample),
        s.scattered ==> !(s.direction.x == 0 && s.direction.y == 0 && s.direction.z == 0),
        s.scattered ==> v3_bounded(s.direction, COORD_BOUND as int),
        (*m matches Material::Lambertian { albedo } ==> s.scattered
            && s.attenuation == albedo),
        (*m matches Material::Metal { albedo, .. } ==> s.attenuation == albedo
            && (s.scattered ==> sdot(s.direction, rec.normal) > 0)),
        (*m matches Material::Dielectric { .. } ==> s.scattered
            && s.attenuation == white()),
{
    match m {
        Material::Lambertian { albedo } => {
            let d0 = Vec3i::new(rec.normal.x + u.x, rec.normal.y + u.y, rec.normal.z + u.z);
            let d = if d0.x == 0 && d0.y == 0 && d0.z == 0 {
                rec.normal
            } else {
                d0
            };
            ScatterResult { scattered: true, attenuation: *albedo, direction: d }
        },
        Material::Metal { albedo, fuzz } => {
            let din = unit_scaled(&r_in.dir);
            let refl = reflect_unit(&din, &rec.normal);
            proof {
                lemma_mul_bound(*fuzz as int, u.x as int, CSCALE as int, 2 * USCALE as int);
                lemma_mul_bound(*fuzz as int, u.y as int, CSCALE as int, 2 * USCALE as int);
                lemma_mul_bound(*fuzz as int, u.z as int, CSCALE as int, 2 * USCALE as int);
            }
            let fx = div_tz(fuzz * u.x, CSCALE);
            let fy = div_tz(fuzz * u.y, CSCALE);
            let fz = div_tz(fuzz * u.z, CSCALE);
            let d = Vec3i::new(refl.x + fx, refl.y + fy, refl.z + fz);
            proof {
                lemma_mul_bound(d.x as int, rec.normal.x as int, 0x21_0000_0000,
                    2 * USCALE as int);
                lemma_mul_bound(d.y as int, rec.normal.y as int, 0x21_0000_0000,
                    2 * USCALE as int);
                lemma_mul_bound(d.z as int, rec.normal.z as int, 0x21_0000_0000,
                    2 * USCALE as int);
            }
            let dd_n = d.x * rec.normal.x + d.y * rec.normal.y + d.z * rec.normal.z;
            let in_bound = d.x <= COORD_BOUND && d.x >= -COORD_BOUND && d.y <= COORD_BOUND
                && d.y >= -COORD_BOUND && d.z <= COORD_BOUND && d.z >= -COORD_BOUND;
            let sc = dd_n > 0 && in_bound;
            proof {
                if sc {
                    assert(!(d.x == 0 && d.y == 0 && d.z == 0)) by (nonlinear_arith)
                        requires
                            sdot(d, rec.normal) > 0,
                    ;
                }
            }
            ScatterResult { scattered: sc, attenuation: *albedo, direction: d }
        },
        Material::Dielectric { refraction_index } => {
            let din = unit_scaled(&r_in.dir);
            let dd = d_bound_dot(&din, &din);
            let nn = d_bound_dot(&rec.normal, &rec.normal);
            let dn = d_bound_dot(&din, &rec.normal);
            let a: i128 = if rec.front_face {
                RSCALE
            } else {
                *refraction_index
            };
            let b: i128 = if rec.front_face {
                *refraction_index
            } else {
                RSCALE
            };
            let reflecting = decide_reflect(a, b, dd, nn, dn, sample);
            let d0 = if reflecting {
                reflect_unit(&din, &rec.normal)
            } else {
                refract_unit(&din, &rec.normal, a, b)
            };
            let d = if (d0.x == 0 && d0.y == 0 && d0.z == 0) || d0.x > COORD_BOUND
                || d0.x < -COORD_BOUND || d0.y > COORD_BOUND || d0.y < -COORD_BOUND
                || d0.z > COORD_BOUND || d0.z < -COORD_BOUND {
                rec.normal
            } else {
                d0
            };
            let white_c = Vec3i::new(CSCALE, CSCALE, CSCALE);
            ScatterResult { scattered: true, attenuation: white_c, direction: d }
        },
    }
}

/// Whether a dielectric reflects: total internal reflection, or Schlick's
/// reflectance above the uniform sample.
fn decide_reflect(a: i128, b: i128, dd: i128, nn: i128, dn: i128, sample: i128) -> (res: bool)
    requires
        1 <= a <= 0x10_0000,
        1 <= b <= 0x10_0000,
        0 <= dd <= 0x3000_0000,
        0 <= nn <= 0x3000_0000,
        -0x3000_0000 <= dn <= 0x3000_0000,
    ensures
        res == (tir(a as int, b as int, dd as int, nn as int, dn as int)
            || schlick(a as int, b as int, cos_fp_of(dd as int, nn as int, dn as int))
                > sample),
{
    proof {
        lemma_mul_bound(dd as int, nn as int, 0x3000_0000, 0x3000_0000);
        lemma_mul_bound(dn as int, dn as int, 0x3000_0000, 0x3000_0000);
        lemma_mul_bound(a as int, a as int, 0x10_0000, 0x10_0000);
        lemma_mul_bound(b as int, b as int, 0x10_0000, 0x10_0000);
        lemma_mul_bound((a * a) as int, (dd * nn - dn * dn) as int, 0x100_0000_0000,
            0x12_0000_0000_0000_0000);
        lemma_mul_bound((b * b) as int, (dd * nn) as int, 0x100_0000_0000,
            0x9_0000_0000_0000_0000);
    }
    let is_tir = a * a * (dd * nn - dn * dn) > b * b * (dd * nn);
    if is_tir {
        return true;
    }
    // Incidence cosine at color scale.
    let ell2u = isqrt((dd as u128) * (nn as u128));
    proof {
        assert(ell2u <= 0x3000_0000u128) by (nonlinear_arith)
            requires
                ell2u * ell2u <= dd * nn,
                0 <= dd <= 0x3000_0000,
                0 <= nn <= 0x3000_0000,
                ell2u >= 0,
        ;
    }
    let ell2 = ell2u as i128;
    let cos_fp: i128 = if ell2 <= 0 {
        CSCALE
    } else {
        proof {
            lemma_mul_bound((-dn) as int, CSCALE as int, 0x3000_0000, CSCALE as int);
        }
        let c = div_tz(-dn * CSCALE, ell2);
        if c < 0 {
            0
        } else if c > CSCALE {
            CSCALE
        } else {
            c
        }
    };
    proof {
        assert(cos_fp == cos_fp_of(dd as int, nn as int, dn as int));
    }
    // Schlick's reflectance.
    proof {
        lemma_mul_bound((a - b) as int, (a - b) as int, 0x10_0000, 0x10_0000);
        lemma_mul_bound(((a - b) * (a - b)) as int, CSCALE as int, 0x100_0000_0000,
            CSCALE as int);
        lemma_mul_bound((a + b) as int, (a + b) as int, 0x20_0000, 0x20_0000);
        assert((a + b) * (a + b) >= 1) by (nonlinear_arith)
            requires
                a >= 1,
                b >= 1,
        ;
    }
    let r0 = div_tz((a - b) * (a - b) * CSCALE, (a + b) * (a + b));
    let mm = CSCALE - cos_fp;
    proof {
        lemma_mul_bound(mm as int, mm as int, CSCALE as int, CSCALE as int);
    }
    let m2 = mm * mm;
    proof {
        lemma_mul_bound(m2 as int, m2 as int, 0x1_0000_0000, 0x1_0000_0000);
    }
    let m4 = m2 * m2;
    proof {
        lemma_mul_bound(m4 as int, mm as int, 0x1_0000_0000_0000_0000, CSCALE as int);
    }
    let m5v = m4 * mm;
    let c2 = CSCALE * CSCALE;
    let den4 = c2 * c2;
    proof {
        assert(m5v as int == (mm as int) * (mm as int) * (mm as int) * (mm as int)
            * (mm as int)) by (nonlinear_arith)
            requires
                m2 == mm * mm,
                m4 == m2 * m2,
                m5v == m4 * mm,
        ;
        assert(den4 as int == (CSCALE as int) * (CSCALE as int) * (CSCALE as int)
            * (CSCALE as int) && den4 >= 1) by (nonlinear_arith)
            requires
                c2 == CSCALE * CSCALE,
                den4 == c2 * c2,
                CSCALE == 65536,
        ;
    }
    let m5 = div_tz(m5v, den4);
    proof {
        assert(0 <= m5v as int && m5v as int <= den4 as int * (CSCALE as int))
            by (nonlinear_arith)
            requires
                0 <= mm <= CSCALE,
                m2 == mm * mm,
                m4 == m2 * m2,
                m5v == m4 * mm,
                den4 as int == (CSCALE as int) * (CSCALE as int) * (CSCALE as int)
                    * (CSCALE as int),
                CSCALE == 65536,
        ;
        crate::num::lemma_div_le(m5v as int, den4 as int, CSCALE as int);
        lemma_mul_bound((CSCALE - r0) as int, m5 as int, 0x200_0000_0000_0000,
            CSCALE as int);
    }
    let refl = r0 + div_tz((CSCALE - r0) * m5, CSCALE);
    refl > sample
}

/// The quantized refracted direction, executably.
fn refract_unit(d: &Vec3i, n: &Vec3i, a: i128, b: i128) -> (r: Vec3i)
    requires
        v3_bounded(*d, 2 * USCALE),
        v3_bounded(*n, 2 * USCALE),
        1 <= a <= 0x10_0000,
        1 <= b <= 0x10_0000,
    ensures
        r == refract_unit_spec(*d, *n, a as int, b as int),
        v3_bounded(r, 0x2000_0000_0000),
{
    let nn = d_bound_dot(n, n);
    if nn <= 0 {
        proof {
            assert(v3_bounded(*d, 0x2000_0000_0000));
        }
        return Vec3i::new(d.x, d.y, d.z);
    }
    let dn = d_bound_dot(d, n);
    proof {
        lemma_mul_bound((-dn) as int, n.x as int, 0x3000_0000, 2 * USCALE as int);
        lemma_mul_bound((-dn) as int, n.y as int, 0x3000_0000, 2 * USCALE as int);
        lemma_mul_bound((-dn) as int, n.z as int, 0x3000_0000, 2 * USCALE as int);
    }
    let px = clamp_mag(d.x + div_tz(-dn * n.x, nn), 0x20_0000);
    let py = clamp_mag(d.y + div_tz(-dn * n.y, nn), 0x20_0000);
    let pz = clamp_mag(d.z + div_tz(-dn * n.z, nn), 0x20_0000);
    proof {
        lemma_mul_bound(a as int, px as int, 0x10_0000, 0x20_0000);
        lemma_mul_bound(a as int, py as int, 0x10_0000, 0x20_0000);
        lemma_mul_bound(a as int, pz as int, 0x10_0000, 0x20_0000);
    }
    let rx = clamp_mag(div_tz(a * px, b), 0x20_0000);
    let ry = clamp_mag(div_tz(a * py, b), 0x20_0000);
    let rz = clamp_mag(div_tz(a * pz, b), 0x20_0000);
    proof {
        lemma_mul_bound(rx as int, rx as int, 0x20_0000, 0x20_0000);
        lemma_mul_bound(ry as int, ry as int, 0x20_0000, 0x20_0000);
        lemma_mul_bound(rz as int, rz as int, 0x20_0000, 0x20_0000);
        assert(rx * rx >= 0 && ry * ry >= 0 && rz * rz >= 0) by (nonlinear_arith);
    }
    let rp2 = rx * rx + ry * ry + rz * rz;
    let dd = d_bound_dot(d, d);
    let par2: i128 = if rp2 >= dd {
        0
    } else {
        dd - rp2
    };
    let kparu = isqrt(par2 as u128);
    proof {
        assert(kparu <= 0x3000_0000u128) by (nonlinear_arith)
            requires
                kparu * kparu <= par2,
                0 <= par2 <= 0x3000_0000,
        ;
    }
    let kpar = kparu as i128;
    let ellnu = isqrt(nn as u128);
    proof {
        assert(ellnu <= 0x3000_0000u128) by (nonlinear_arith)
            requires
                ellnu * ellnu <= nn,
                0 <= nn <= 0x3000_0000,
        ;
    }
    let elln = ellnu as i128;
    if elln <= 0 {
        return Vec3i::new(rx, ry, rz);
    }
    proof {
        lemma_mul_bound(kpar as int, n.x as int, 0x3000_0000, 2 * USCALE as int);
        lemma_mul_bound(kpar as int, n.y as int, 0x3000_0000, 2 * USCALE as int);
        lemma_mul_bound(kpar as int, n.z as int, 0x3000_0000, 2 * USCALE as int);
    }
    Vec3i::new(
        rx - div_tz(kpar * n.x, elln),
        ry - div_tz(kpar * n.y, elln),
        rz - div_tz(kpar * n.z, elln),
    )
}

} // verus!
