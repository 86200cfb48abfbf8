//! Exact rational values for ray parameters.  A value is a fraction of two
//! `i128` integers with a positive denominator; comparisons cross-multiply,
//! so no rounding ever happens.  Magnitude bounds keep every cross product
//! inside `i128`.

use vstd::prelude::*;
use crate::num::lemma_mul_bound;

verus! {

/// Largest numerator magnitude a well-formed rational may carry.
pub const NUM_BOUND: i128 = 0x40_0000_0000_0000_0000;

/// Largest denominator a well-formed rational may carry.
pub const DEN_BOUND: i128 = 0x80_0000_0000_0000;

/// A fraction `num / den` with `den > 0`.
#[derive(Clone, Copy, Debug)]
pub struct Rat {
    pub num: i128,
    pub den: i128,
}

/// Well-formed: positive denominator and both parts within the bounds that
/// keep cross products inside `i128`.
pub open spec fn rat_wf(a: Rat) -> bool {
    0 < a.den <= DEN_BOUND && -NUM_BOUND <= a.num <= NUM_BOUND
}

/// `a <= b` as fractions, by cross multiplication.
pub open spec fn rle(a: Rat, b: Rat) -> bool {
    a.num * b.den <= b.num * a.den
}

/// `a < b` as fractions, by cross multiplication.
pub open spec fn rlt(a: Rat, b: Rat) -> bool {
    a.num * b.den < b.num * a.den
}

/// `a == b` as fractions, by cross multiplication.
pub open spec fn req(a: Rat, b: Rat) -> bool {
    a.num * b.den == b.num * a.den
}

/// Cross products of well-formed rationals stay strictly inside `i128`.
pub proof fn lemma_cross_in_range(a: Rat, b: Rat)
    requires
        rat_wf(a),
        rat_wf(b),
    ensures
        i128::MIN < a.num * b.den < i128::MAX,
        i128::MIN < b.num * a.den < i128::MAX,
{
    lemma_mul_bound(a.num as int, b.den as int, NUM_BOUND as int, DEN_BOUND as int);
    lemma_mul_bound(b.num as int, a.den as int, NUM_BOUND as int, DEN_BOUND as int);
}

/// Strict order is transitive.
pub proof fn lemma_rlt_trans(a: Rat, b: Rat, c: Rat)
    requires
        a.den > 0,
        b.den > 0,
        c.den > 0,
        rlt(a, b),
        rlt(b, c),
    ensures
        rlt(a, c),
{
    assert(a.num * c.den < c.num * a.den) by (nonlinear_arith)
        requires
            a.den > 0,
            b.den > 0,
            c.den > 0,
            a.num * b.den < b.num * a.den,
            b.num * c.den < c.num * b.den,
    ;
}

/// Weak order is transitive.
pub proof fn lemma_rle_trans(a: Rat, b: Rat, c: Rat)
    requires
        a.den > 0,
        b.den > 0,
        c.den > 0,
        rle(a, b),
        rle(b, c),
    ensures
        rle(a, c),
{
    assert(a.num * c.den <= c.num * a.den) by (nonlinear_arith)
        requires
            a.den > 0,
            b.den > 0,
            c.den > 0,
            a.num * b.den <= b.num * a.den,
            b.num * c.den <= c.num * b.den,
    ;
}

/// A strict step followed by a weak step stays strict.
pub proof fn lemma_rlt_rle_trans(a: Rat, b: Rat, c: Rat)
    requires
        a.den > 0,
        b.den > 0,
        c.den > 0,
        rlt(a, b),
        rle(b, c),
    ensures
        rlt(a, c),
{
    assert(a.num * c.den < c.num * a.den) by (nonlinear_arith)
        requires
            a.den > 0,
            b.den > 0,
            c.den > 0,
            a.num * b.den < b.num * a.den,
            b.num * c.den <= c.num * b.den,
    ;
}

/// A weak step followed by a strict step stays strict.
pub proof fn lemma_rle_rlt_trans(a: Rat, b: Rat, c: Rat)
    requires
        a.den > 0,
        b.den > 0,
        c.den > 0,
        rle(a, b),
        rlt(b, c),
    ensures
        rlt(a, c),
{
    assert(a.num * c.den < c.num * a.den) by (nonlinear_arith)
        requires
            a.den > 0,
            b.den > 0,
            c.den > 0,
            a.num * b.den <= b.num * a.den,
            b.num * c.den < c.num * b.den,
    ;
}

impl Rat {
    /// The fraction `num / den`.
    pub fn new(num: i128, den: i128) -> (r: Rat)
        requires
            0 < den <= DEN_BOUND,
            -NUM_BOUND <= num <= NUM_BOUND,
        ensures
            r.num == num && r.den == den,
            rat_wf(r),
    {
        Rat { num, den }
    }

    /// The whole number `v`.
    pub fn whole(v: i128) -> (r: Rat)
        requires
            -NUM_BOUND <= v <= NUM_BOUND,
        ensures
            r.num == v && r.den == 1,
            rat_wf(r),
    {
        Rat { num: v, den: 1 }
    }

    /// Exact strict comparison.
    pub fn lt(&self, other: &Rat) -> (r: bool)
        requires
            rat_wf(*self),
            rat_wf(*other),
        ensures
            r == rlt(*self, *other),
    {
        proof {
            lemma_cross_in_range(*self, *other);
        }
        self.num * other.den < other.num * self.den
    }

    /// Exact weak comparison.
    pub fn le(&self, other: &Rat) -> (r: bool)
        requires
            rat_wf(*self),
            rat_wf(*other),
        ensures
            r == rle(*self, *other),
    {
        proof {
            lemma_cross_in_range(*self, *other);
        }
        self.num * other.den <= other.num * self.den
    }

    /// Exact equality of the fractions.
    pub fn eq_rat(&self, other: &Rat) -> (r: bool)
        requires
            rat_wf(*self),
            rat_wf(*other),
        ensures
            r == req(*self, *other),
    {
        proof {
            lemma_cross_in_range(*self, *other);
        }
        self.num * other.den == other.num * self.den
    }
}

/// The larger of two rationals.
pub fn rat_max(a: Rat, b: Rat) -> (r: Rat)
    requires
        rat_wf(a),
        rat_wf(b),
    ensures
        rat_wf(r),
        r == if rlt(a, b) { b } else { a },
        rle(a, r) && rle(b, r),
{
    if a.lt(&b) {
        b
    } else {
        a
    }
}

/// The smaller of two rationals.
pub fn rat_min(a: Rat, b: Rat) -> (r: Rat)
    requires
        rat_wf(a),
        rat_wf(b),
    ensures
        rat_wf(r),
        r == if rlt(b, a) { b } else { a },
        rle(r, a) && rle(r, b),
{
    if b.lt(&a) {
        b
    } else {
        a
    }
}

} // verus!
