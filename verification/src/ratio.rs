//! Exact fractions of machine integers, and their order.
//!
//! Scores are quotients of set sizes. They are kept as a numerator and a
//! denominator so that ranking never depends on rounding; two fractions are
//! ordered by cross-multiplication, which is decided here without ever
//! forming the (possibly 256-bit) products.

use vstd::prelude::*;
use vstd::arithmetic::div_mod::{lemma_fundamental_div_mod, lemma_mod_bound};

verus! {

/// A fraction of two integers, the mathematical value of a [`Ratio`].
pub struct Fraction {
    pub num: int,
    pub den: int,
}

impl Fraction {
    /// The numerator is not negative and the denominator is positive.
    pub open spec fn wf(self) -> bool {
        0 <= self.num && 0 < self.den
    }

    /// `self < other` as rational numbers, for positive denominators.
    pub open spec fn is_less(self, other: Fraction) -> bool {
        self.num * other.den < other.num * self.den
    }

    /// `self == other` as rational numbers, for positive denominators.
    pub open spec fn is_same(self, other: Fraction) -> bool {
        self.num * other.den == other.num * self.den
    }

    /// The fraction is the number zero.
    pub open spec fn is_zero(self) -> bool {
        self.num == 0
    }

    /// The fraction is the number one.
    pub open spec fn is_one(self) -> bool {
        self.num == self.den
    }

    /// The fraction lies in the closed interval from zero to one.
    pub open spec fn in_unit_interval(self) -> bool {
        0 <= self.num <= self.den
    }

    /// `1 - self`.
    pub open spec fn complement(self) -> Fraction {
        Fraction { num: self.den - self.num, den: self.den }
    }

    /// `self * other`.
    pub open spec fn times(self, other: Fraction) -> Fraction {
        Fraction { num: self.num * other.num, den: self.den * other.den }
    }
}

/// The fraction `num / den` of two machine integers. It is not kept in
/// lowest terms: `2/4` and `1/2` are different values of this type that
/// stand for the same number.
#[derive(Clone, Copy, Debug, PartialEq, Eq)]
pub struct Ratio {
    pub num: u128,
    pub den: u128,
}

impl View for Ratio {
    type V = Fraction;

    open spec fn view(&self) -> Fraction {
        Fraction { num: self.num as int, den: self.den as int }
    }
}

impl Ratio {
    /// A ratio is well formed when its denominator is not zero.
    pub open spec fn wf(self) -> bool {
        self.den > 0
    }

    /// Decides `self < other` exactly.
    ///
    /// The quotients are compared first; when they agree the question is
    /// handed on to the reciprocals of the fractional parts, as in Euclid's
    /// algorithm, so no intermediate value exceeds the inputs.
    pub fn less_than(&self, other: &Ratio) -> (r: bool)
        requires
            self.wf(),
            other.wf(),
        ensures
            r == self@.is_less(other@),
    {
        let mut an: u128 = self.num;
        let mut ad: u128 = self.den;
        let mut bn: u128 = other.num;
        let mut bd: u128 = other.den;
        loop
            invariant
                ad > 0,
                bd > 0,
                (an * bd < bn * ad) == self@.is_less(other@),
            decreases ad + bd,
        {
            let qa: u128 = an / ad;
            let ra: u128 = an % ad;
            let qb: u128 = bn / bd;
            let rb: u128 = bn % bd;
            proof {
                lemma_quotient_step(an as int, ad as int, bn as int, bd as int);
            }
            if qa != qb {
                return qa < qb;
            }
            if rb == 0 {
                assert(!(ra * bd < rb * ad)) by (nonlinear_arith)
                    requires
                        rb == 0,
                        0 <= ra,
                        0 < bd,
                ;
                return false;
            }
            if ra == 0 {
                assert(ra * bd < rb * ad) by (nonlinear_arith)
                    requires
                        ra == 0,
                        0 < rb,
                        0 < ad,
                ;
                return true;
            }
            assert((bd * ra < ad * rb) == (ra * bd < rb * ad)) by (nonlinear_arith);
            an = bd;
            bn = ad;
            ad = rb;
            bd = ra;
        }
    }

    /// Decides whether two fractions are the same rational number.
    pub fn same_value(&self, other: &Ratio) -> (r: bool)
        requires
            self.wf(),
            other.wf(),
        ensures
            r == self@.is_same(other@),
    {
        !self.less_than(other) && !other.less_than(self)
    }
}

/// The order of fractions is transitive: from `x <= y` and `y <= z` follows
/// `x <= z`, and `x < z` as soon as one of the two steps is strict.
pub proof fn lemma_fraction_order_transitive(x: Fraction, y: Fraction, z: Fraction)
    requires
        x.wf(),
        y.wf(),
        z.wf(),
        !y.is_less(x),
        !z.is_less(y),
    ensures
        !z.is_less(x),
        x.is_less(y) || y.is_less(z) ==> x.is_less(z),
        x.is_same(y) && y.is_same(z) ==> x.is_same(z),
{
    let (a, b) = (x.num, x.den);
    let (c, d) = (y.num, y.den);
    let (e, f) = (z.num, z.den);
    assert((a * d) * f <= (c * b) * f) by (nonlinear_arith)
        requires
            a * d <= c * b,
            0 < f,
    ;
    assert((c * f) * b <= (e * d) * b) by (nonlinear_arith)
        requires
            c * f <= e * d,
            0 < b,
    ;
    assert((a * d) * f == (a * f) * d && (c * b) * f == (c * f) * b && (e * d) * b == (e * b)
        * d) by (nonlinear_arith);
    assert(a * f <= e * b) by (nonlinear_arith)
        requires
            (a * f) * d <= (e * b) * d,
            0 < d,
    ;
    if x.is_same(y) && y.is_same(z) {
        assert((a * d) * f == (c * b) * f);
        assert((c * f) * b == (e * d) * b);
        assert(a * f == e * b) by (nonlinear_arith)
            requires
                (a * f) * d == (e * b) * d,
                0 < d,
        ;
    }
    if x.is_less(y) {
        assert((a * d) * f < (c * b) * f) by (nonlinear_arith)
            requires
                a * d < c * b,
                0 < f,
        ;
        assert(a * f < e * b) by (nonlinear_arith)
            requires
                (a * f) * d < (e * b) * d,
                0 < d,
        ;
    }
    if y.is_less(z) {
        assert((c * f) * b < (e * d) * b) by (nonlinear_arith)
            requires
                c * f < e * d,
                0 < b,
        ;
        assert(a * f < e * b) by (nonlinear_arith)
            requires
                (a * f) * d < (e * b) * d,
                0 < d,
        ;
    }
}

/// One step of the comparison of `a/b` with `c/d`: unequal quotients settle
/// it, equal quotients leave the comparison of the remainders.
proof fn lemma_quotient_step(a: int, b: int, c: int, d: int)
    requires
        0 <= a,
        0 < b,
        0 <= c,
        0 < d,
    ensures
        a / b < c / d ==> a * d < c * b,
        a / b > c / d ==> !(a * d < c * b),
        a / b == c / d ==> ((a * d < c * b) <==> ((a % b) * d < (c % d) * b)),
        0 <= a % b < b,
        0 <= c % d < d,
{
    lemma_fundamental_div_mod(a, b);
    lemma_fundamental_div_mod(c, d);
    lemma_mod_bound(a, b);
    lemma_mod_bound(c, d);
    let qa = a / b;
    let ra = a % b;
    let qc = c / d;
    let rc = c % d;
    assert(a * d == qa * (b * d) + ra * d) by (nonlinear_arith)
        requires
            a == b * qa + ra,
    ;
    assert(c * b == qc * (b * d) + rc * b) by (nonlinear_arith)
        requires
            c == d * qc + rc,
    ;
    assert(ra * d < b * d) by (nonlinear_arith)
        requires
            0 <= ra < b,
            0 < d,
    ;
    assert(rc * b < b * d) by (nonlinear_arith)
        requires
            0 <= rc < d,
            0 < b,
    ;
    assert(0 <= ra * d && 0 <= rc * b) by (nonlinear_arith)
        requires
            0 <= ra,
            0 <= rc,
            0 < b,
            0 < d,
    ;
    if qa < qc {
        assert((qa + 1) * (b * d) <= qc * (b * d)) by (nonlinear_arith)
            requires
                qa + 1 <= qc,
                0 < b,
                0 < d,
        ;
        assert((qa + 1) * (b * d) == qa * (b * d) + b * d) by (nonlinear_arith);
    }
    if qa > qc {
        assert((qc + 1) * (b * d) <= qa * (b * d)) by (nonlinear_arith)
            requires
                qc + 1 <= qa,
                0 < b,
                0 < d,
        ;
        assert((qc + 1) * (b * d) == qc * (b * d) + b * d) by (nonlinear_arith);
    }
}

} // verus!
