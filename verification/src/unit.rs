//! Quantized unit directions.  Directions live at a fixed unit scale; the
//! normalizer is a deterministic integer computation, stated exactly by a
//! spec function, so every caller knows precisely which vector comes back.
//! Inputs that defeat the quantization fall back to a fixed unit axis, and
//! the result always lies in the unit band.

use vstd::prelude::*;
use crate::num::{isq, isqrt, lemma_mul_bound};
use crate::rat::NUM_BOUND;
use crate::vec3i::{Vec3i, v3_bounded, sdot};

verus! {

/// Fixed-point scale of unit direction vectors.
pub const USCALE: i128 = 4096;

/// An approximately unit direction: nonzero, bounded, with a squared length
/// within a small quantization band around the unit scale.
pub open spec fn unit_dir(u: Vec3i) -> bool {
    &&& v3_bounded(u, 2 * USCALE)
    &&& !(u.x == 0 && u.y == 0 && u.z == 0)
    &&& (USCALE - 4) * (USCALE - 4) <= sdot(u, u) <= (USCALE + 4) * (USCALE + 4)
}

/// Integer division rounding toward zero (for a positive divisor).
pub open spec fn sdiv(a: int, b: int) -> int {
    if a >= 0 {
        a / b
    } else {
        -((-a) / b)
    }
}

/// Floor division of a nonnegative value by a positive one.
pub fn div_nn(a: i128, b: i128) -> (q: i128)
    requires
        0 <= a,
        0 < b,
    ensures
        q == a as int / b as int,
        0 <= q <= a,
{
    proof {
        vstd::arithmetic::div_mod::lemma_fundamental_div_mod(a as int, b as int);
        assert(0 <= a as int / b as int <= a) by (nonlinear_arith)
            requires
                0 <= a,
                0 < b,
                a == b * (a as int / b as int) + a as int % (b as int),
                0 <= a as int % (b as int) < b,
        ;
    }
    ((a as u128) / (b as u128)) as i128
}

/// Signed division toward zero, exactly `sdiv`.
pub fn div_tz(a: i128, b: i128) -> (q: i128)
    requires
        0 < b,
        -0x4000_0000_0000_0000_0000_0000_0000 <= a <= 0x4000_0000_0000_0000_0000_0000_0000,
    ensures
        q == sdiv(a as int, b as int),
        a >= 0 ==> 0 <= q <= a,
        a < 0 ==> a <= q <= 0,
{
    if a >= 0 {
        div_nn(a, b)
    } else {
        -div_nn(-a, b)
    }
}

/// Clamp into `[-m, m]`.
pub open spec fn clampi(x: int, m: int) -> int {
    if x > m {
        m
    } else if x < -m {
        -m
    } else {
        x
    }
}

/// Clamp into `[-m, m]`, executably.
pub fn clamp_mag(x: i128, m: i128) -> (c: i128)
    requires
        0 < m,
    ensures
        c == clampi(x as int, m as int),
        -m <= c <= m,
{
    if x > m {
        m
    } else if x < -m {
        -m
    } else {
        x
    }
}

/// Halve each component toward zero while any component is too large for
/// the squared-length computation.
pub open spec fn shrink1(v: Vec3i) -> Vec3i {
    if v.x > 0x100_0000_0000 || v.x < -0x100_0000_0000 || v.y > 0x100_0000_0000
        || v.y < -0x100_0000_0000 || v.z > 0x100_0000_0000 || v.z < -0x100_0000_0000 {
        Vec3i {
            x: sdiv(v.x as int, 2) as i128,
            y: sdiv(v.y as int, 2) as i128,
            z: sdiv(v.z as int, 2) as i128,
        }
    } else {
        v
    }
}

/// `rounds` halving passes.
pub open spec fn shrink(v: Vec3i, rounds: nat) -> Vec3i
    decreases rounds,
{
    if rounds == 0 {
        v
    } else {
        shrink1(shrink(v, (rounds - 1) as nat))
    }
}

/// The fixed unit axis returned where quantization degenerates.
pub open spec fn unit_fallback() -> Vec3i {
    Vec3i { x: USCALE, y: 0, z: 0 }
}

/// The quantized unit direction of a vector: shrink it into range, divide
/// by the floor square root of its squared length at the unit scale, and
/// keep the result only when it lands in the unit band.
pub open spec fn unit_of(v: Vec3i) -> Vec3i {
    let w = shrink(v, 40);
    if w.x > 0x100_0000_0000 || w.x < -0x100_0000_0000 || w.y > 0x100_0000_0000
        || w.y < -0x100_0000_0000 || w.z > 0x100_0000_0000 || w.z < -0x100_0000_0000 {
        unit_fallback()
    } else {
        let n2 = w.x * w.x + w.y * w.y + w.z * w.z;
        if n2 <= 0 {
            unit_fallback()
        } else {
            let ell = isq(n2 as nat) as int;
            if ell <= 0 {
                unit_fallback()
            } else {
                let u = Vec3i {
                    x: sdiv(w.x * USCALE, ell) as i128,
                    y: sdiv(w.y * USCALE, ell) as i128,
                    z: sdiv(w.z * USCALE, ell) as i128,
                };
                if u.x == 0 && u.y == 0 && u.z == 0 {
                    unit_fallback()
                } else if u.x > 2 * USCALE || u.x < -2 * USCALE || u.y > 2 * USCALE
                    || u.y < -2 * USCALE || u.z > 2 * USCALE || u.z < -2 * USCALE {
                    unit_fallback()
                } else {
                    let un2 = u.x * u.x + u.y * u.y + u.z * u.z;
                    if (USCALE - 4) * (USCALE - 4) <= un2
                        && un2 <= (USCALE + 4) * (USCALE + 4) {
                        u
                    } else {
                        unit_fallback()
                    }
                }
            }
        }
    }
}

/// The normalizer always lands in the unit band.
pub proof fn lemma_unit_of_unit(v: Vec3i)
    ensures
        unit_dir(unit_of(v)),
{
    assert(unit_dir(unit_fallback())) by (nonlinear_arith)
        requires
            unit_fallback() == (Vec3i { x: USCALE, y: 0, z: 0 }),
            USCALE == 4096,
    ;
}

/// Negating a unit direction keeps it in the unit band.
pub proof fn lemma_unit_neg(u: Vec3i)
    requires
        unit_dir(u),
    ensures
        unit_dir(Vec3i { x: (-u.x) as i128, y: (-u.y) as i128, z: (-u.z) as i128 }),
{
    let n = Vec3i { x: (-u.x) as i128, y: (-u.y) as i128, z: (-u.z) as i128 };
    assert(sdot(n, n) == sdot(u, u)) by (nonlinear_arith)
        requires
            v3_bounded(u, 2 * USCALE),
            n.x == -u.x && n.y == -u.y && n.z == -u.z,
    ;
}

/// Scale an arbitrary bounded direction down to the unit scale: exactly the
/// spec-level normalizer, and always within the unit band.
pub fn unit_scaled(v: &Vec3i) -> (u: Vec3i)
    requires
        v3_bounded(*v, 4 * NUM_BOUND as int),
    ensures
        u == unit_of(*v),
        unit_dir(u),
{
    proof {
        lemma_unit_of_unit(*v);
    }
    let fallback = Vec3i::new(USCALE, 0, 0);
    let mut w = Vec3i::new(v.x, v.y, v.z);
    let mut round: u8 = 0;
    while round < 40
        invariant
            v3_bounded(w, 4 * NUM_BOUND as int),
            round <= 40,
            w == shrink(*v, round as nat),
        decreases 40 - round,
    {
        if w.x > 0x100_0000_0000 || w.x < -0x100_0000_0000 || w.y > 0x100_0000_0000
            || w.y < -0x100_0000_0000 || w.z > 0x100_0000_0000 || w.z < -0x100_0000_0000 {
            w = Vec3i::new(div_tz(w.x, 2), div_tz(w.y, 2), div_tz(w.z, 2));
        }
        round = round + 1;
        proof {
            assert(shrink(*v, round as nat) == shrink1(shrink(*v, (round - 1) as nat)));
        }
    }
    if w.x > 0x100_0000_0000 || w.x < -0x100_0000_0000 || w.y > 0x100_0000_0000
        || w.y < -0x100_0000_0000 || w.z > 0x100_0000_0000 || w.z < -0x100_0000_0000 {
        return fallback;
    }
    proof {
        lemma_mul_bound(w.x as int, w.x as int, 0x100_0000_0000, 0x100_0000_0000);
        lemma_mul_bound(w.y as int, w.y as int, 0x100_0000_0000, 0x100_0000_0000);
        lemma_mul_bound(w.z as int, w.z as int, 0x100_0000_0000, 0x100_0000_0000);
        assert(w.x * w.x >= 0 && w.y * w.y >= 0 && w.z * w.z >= 0) by (nonlinear_arith);
    }
    let n2 = w.x * w.x + w.y * w.y + w.z * w.z;
    if n2 <= 0 {
        return fallback;
    }
    let ell_u = isqrt(n2 as u128);
    proof {
        assert(ell_u <= 0x200_0000_0000u128) by (nonlinear_arith)
            requires
                ell_u * ell_u <= n2,
                0 <= n2 <= 3 * 0x100_0000_0000 * 0x100_0000_0000,
        ;
    }
    let ell = ell_u as i128;
    if ell <= 0 {
        return fallback;
    }
    proof {
        lemma_mul_bound(w.x as int, USCALE as int, 0x100_0000_0000, USCALE as int);
        lemma_mul_bound(w.y as int, USCALE as int, 0x100_0000_0000, USCALE as int);
        lemma_mul_bound(w.z as int, USCALE as int, 0x100_0000_0000, USCALE as int);
    }
    let u = Vec3i::new(
        div_tz(w.x * USCALE, ell),
        div_tz(w.y * USCALE, ell),
        div_tz(w.z * USCALE, ell),
    );
    if u.x == 0 && u.y == 0 && u.z == 0 {
        return fallback;
    }
    if u.x > 2 * USCALE || u.x < -2 * USCALE || u.y > 2 * USCALE || u.y < -2 * USCALE
        || u.z > 2 * USCALE || u.z < -2 * USCALE {
        return fallback;
    }
    proof {
        lemma_mul_bound(u.x as int, u.x as int, 2 * USCALE as int, 2 * USCALE as int);
        lemma_mul_bound(u.y as int, u.y as int, 2 * USCALE as int, 2 * USCALE as int);
        lemma_mul_bound(u.z as int, u.z as int, 2 * USCALE as int, 2 * USCALE as int);
    }
    let un2 = u.x * u.x + u.y * u.y + u.z * u.z;
    if (USCALE - 4) * (USCALE - 4) <= un2 && un2 <= (USCALE + 4) * (USCALE + 4) {
        u
    } else {
        fallback
    }
}

} // verus!
