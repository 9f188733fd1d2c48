//! Exact rational numbers on 64-bit words: positive denominator, lowest
//! terms, and checked arithmetic that reports when a reduced result does
//! not fit the word size instead of overflowing.

use vstd::prelude::*;
use crate::arith::{
    divides, gcd, iabs, gcd_u128, lemma_div_exact, lemma_divides_mul, lemma_gcd_divides,
    lemma_gcd_greatest, lemma_gcd_pos, lemma_unique_reduced,
};
use vstd::arithmetic::div_mod::lemma_div_multiples_vanish;

verus! {

/// An exact rational number. Well-formed values keep `den` positive, the
/// pair in lowest terms, and `num` above `i64::MIN` so that negation and
/// absolute value never overflow.
#[derive(Clone, Copy, Debug, PartialEq, Eq, Structural)]
pub struct Rat {
    pub num: i64,
    pub den: i64,
}

/// `v` fits the symmetric 64-bit range kept by well-formed rationals.
pub open spec fn fits_word(v: int) -> bool {
    -(i64::MAX as int) <= v <= i64::MAX as int
}

/// Cross-multiplied comparison `an / ad <= bn / bd` (positive denominators).
pub open spec fn frac_le(an: int, ad: int, bn: int, bd: int) -> bool {
    an * bd <= bn * ad
}

impl Rat {
    /// The representation invariant: positive denominator, lowest terms,
    /// numerator in the symmetric word range.
    pub open spec fn wf(self) -> bool {
        &&& self.den > 0
        &&& fits_word(self.num as int)
        &&& gcd(iabs(self.num as int), self.den as nat) == 1
    }

    /// This rational equals the fraction `n / d`, by cross multiplication.
    pub open spec fn is_frac(self, n: int, d: int) -> bool {
        (self.num as int) * d == n * (self.den as int)
    }

    /// The reduced form of `n / d` for `d > 0`, when it fits the word range.
    pub open spec fn norm_spec(n: int, d: int) -> Option<Rat> {
        let g = gcd(iabs(n), d as nat) as int;
        let n2 = n / g;
        let d2 = d / g;
        if fits_word(n2) && d2 <= i64::MAX as int {
            Some(Rat { num: n2 as i64, den: d2 as i64 })
        } else {
            None
        }
    }

    /// Reduce `n / d` to canonical form, reporting `None` when the reduced
    /// numerator or denominator does not fit a 64-bit word.
    pub fn new_reduced(n: i128, d: i128) -> (r: Option<Rat>)
        requires
            d > 0,
            n > i128::MIN,
        ensures
            r == Self::norm_spec(n as int, d as int),
            r matches Some(q) ==> q.wf() && q.is_frac(n as int, d as int),
    {
        let m: u128 = if n < 0 {
            (-n) as u128
        } else {
            n as u128
        };
        let g: u128 = gcd_u128(m, d as u128);
        proof {
            lemma_gcd_pos(m as nat, d as nat);
            lemma_gcd_divides(m as nat, d as nat);
            lemma_div_exact(m as nat, g as nat);
            lemma_div_exact(d as nat, g as nat);
        }
        let n2u: u128 = m / g;
        let d2: u128 = (d as u128) / g;
        proof {
            // Relate the unsigned quotients to the signed reduction that
            // norm_spec performs.
            if n < 0 {
                assert((g as int) * (-(n2u as int)) == n as int) by (nonlinear_arith)
                    requires
                        m as int == (g as int) * (n2u as int),
                        n as int == -(m as int),
                ;
                lemma_div_multiples_vanish(-(n2u as int), g as int);
            } else {
                assert((g as int) * (n2u as int) == n as int) by (nonlinear_arith)
                    requires
                        m as int == (g as int) * (n2u as int),
                        n as int == m as int,
                ;
                lemma_div_multiples_vanish(n2u as int, g as int);
            }
            assert((g as int) * (d2 as int) == d as int) by (nonlinear_arith)
                requires
                    d as int == (g as int) * (d2 as int),
            ;
            lemma_div_multiples_vanish(d2 as int, g as int);
            lemma_norm_props(n as int, d as int);
        }
        if n2u <= i64::MAX as u128 && d2 <= i64::MAX as u128 {
            let num: i64 = if n < 0 {
                -(n2u as i64)
            } else {
                n2u as i64
            };
            Some(Rat { num, den: d2 as i64 })
        } else {
            None
        }
    }

    /// The canonical reduced sum of two well-formed rationals.
    pub open spec fn add_spec(a: Rat, b: Rat) -> Option<Rat> {
        Self::norm_spec(
            (a.num as int) * (b.den as int) + (b.num as int) * (a.den as int),
            (a.den as int) * (b.den as int),
        )
    }

    /// The canonical reduced difference.
    pub open spec fn sub_spec(a: Rat, b: Rat) -> Option<Rat> {
        Self::norm_spec(
            (a.num as int) * (b.den as int) - (b.num as int) * (a.den as int),
            (a.den as int) * (b.den as int),
        )
    }

    /// The canonical reduced product.
    pub open spec fn mul_spec(a: Rat, b: Rat) -> Option<Rat> {
        Self::norm_spec((a.num as int) * (b.num as int), (a.den as int) * (b.den as int))
    }

    /// The canonical reduced quotient (undefined for a zero divisor).
    pub open spec fn div_spec(a: Rat, b: Rat) -> Option<Rat> {
        if b.num == 0 {
            None
        } else if b.num > 0 {
            Self::norm_spec((a.num as int) * (b.den as int), (a.den as int) * (b.num as int))
        } else {
            Self::norm_spec(-((a.num as int) * (b.den as int)), (a.den as int) * (-(b.num as int)))
        }
    }

    /// Checked addition.
    pub fn add(self, other: Rat) -> (r: Option<Rat>)
        requires
            self.wf(),
            other.wf(),
        ensures
            r == Self::add_spec(self, other),
            r matches Some(q) ==> q.wf() && q.is_frac(
                (self.num as int) * (other.den as int) + (other.num as int) * (self.den as int),
                (self.den as int) * (other.den as int),
            ),
    {
        proof {
            lemma_rat_raw_bounds(self, other);
        }
        let n: i128 = (self.num as i128) * (other.den as i128)
            + (other.num as i128) * (self.den as i128);
        let d: i128 = (self.den as i128) * (other.den as i128);
        Self::new_reduced(n, d)
    }

    /// Checked subtraction.
    pub fn sub(self, other: Rat) -> (r: Option<Rat>)
        requires
            self.wf(),
            other.wf(),
        ensures
            r == Self::sub_spec(self, other),
            r matches Some(q) ==> q.wf() && q.is_frac(
                (self.num as int) * (other.den as int) - (other.num as int) * (self.den as int),
                (self.den as int) * (other.den as int),
            ),
    {
        proof {
            lemma_rat_raw_bounds(self, other);
        }
        let n: i128 = (self.num as i128) * (other.den as i128)
            - (other.num as i128) * (self.den as i128);
        let d: i128 = (self.den as i128) * (other.den as i128);
        Self::new_reduced(n, d)
    }

    /// Checked multiplication.
    pub fn mul(self, other: Rat) -> (r: Option<Rat>)
        requires
            self.wf(),
            other.wf(),
        ensures
            r == Self::mul_spec(self, other),
            r matches Some(q) ==> q.wf() && q.is_frac(
                (self.num as int) * (other.num as int),
                (self.den as int) * (other.den as int),
            ),
    {
        proof {
            lemma_rat_raw_bounds(self, other);
        }
        let n: i128 = (self.num as i128) * (other.num as i128);
        let d: i128 = (self.den as i128) * (other.den as i128);
        Self::new_reduced(n, d)
    }

    /// Checked division by a nonzero rational.
    pub fn div(self, other: Rat) -> (r: Option<Rat>)
        requires
            self.wf(),
            other.wf(),
            other.num != 0,
        ensures
            r == Self::div_spec(self, other),
            r matches Some(q) ==> q.wf() && q.is_frac(
                (self.num as int) * (other.den as int),
                (self.den as int) * (other.num as int),
            ),
    {
        proof {
            lemma_rat_raw_bounds(self, other);
        }
        let n0: i128 = (self.num as i128) * (other.den as i128);
        let d0: i128 = (self.den as i128) * (other.num as i128);
        let r = if other.num > 0 {
            Self::new_reduced(n0, d0)
        } else {
            proof {
                assert(-((self.den as int) * (other.num as int)) == (self.den as int) * (-(
                other.num as int))) by (nonlinear_arith);
            }
            Self::new_reduced(-n0, -d0)
        };
        proof {
            if r is Some {
                let q = r->Some_0;
                assert(q.is_frac(n0 as int, d0 as int)) by (nonlinear_arith)
                    requires
                        (q.num as int) * (-(d0 as int)) == (-(n0 as int)) * (q.den as int)
                            || (q.num as int) * (d0 as int) == (n0 as int) * (q.den as int),
                ;
            }
        }
        r
    }

    /// Negation; total on well-formed rationals.
    pub fn neg(self) -> (r: Rat)
        requires
            self.wf(),
        ensures
            r.wf(),
            r.num as int == -(self.num as int),
            r.den == self.den,
    {
        let r = Rat { num: -self.num, den: self.den };
        proof {
            assert(iabs(r.num as int) == iabs(self.num as int));
        }
        r
    }

    /// Absolute value; total on well-formed rationals.
    pub fn abs(self) -> (r: Rat)
        requires
            self.wf(),
        ensures
            r.wf(),
            r.num as int == iabs(self.num as int) as int,
            r.den == self.den,
    {
        if self.num < 0 {
            self.neg()
        } else {
            self
        }
    }

    /// The rational with value `n`.
    pub fn from_int(n: i64) -> (r: Rat)
        requires
            n > i64::MIN,
        ensures
            r.wf(),
            r.num == n,
            r.den == 1,
    {
        proof {
            lemma_gcd_one(iabs(n as int));
        }
        Rat { num: n, den: 1 }
    }

    /// Whether this rational is zero.
    pub fn is_zero(self) -> (r: bool)
        ensures
            r == (self.num == 0),
    {
        self.num == 0
    }

    /// Cross-multiplied order test: `self <= other` as values.
    pub fn le(self, other: Rat) -> (r: bool)
        requires
            self.wf(),
            other.wf(),
        ensures
            r == frac_le(self.num as int, self.den as int, other.num as int, other.den as int),
    {
        proof {
            lemma_rat_raw_bounds(self, other);
        }
        (self.num as i128) * (other.den as i128) <= (other.num as i128) * (self.den as i128)
    }
}

/// Two well-formed rationals with the same value are identical.
pub proof fn lemma_rat_value_unique(a: Rat, b: Rat)
    requires
        a.wf(),
        b.wf(),
        (a.num as int) * (b.den as int) == (b.num as int) * (a.den as int),
    ensures
        a == b,
{
    lemma_unique_reduced(a.num as int, a.den as int, b.num as int, b.den as int);
}

/// `gcd(a, 1) == 1`.
pub proof fn lemma_gcd_one(a: nat)
    ensures
        gcd(a, 1) == 1,
{
    assert(a % 1 == 0) by (nonlinear_arith);
    assert(gcd(a, 1) == gcd(1, 0));
}

/// Word-range bounds on the raw products and sums formed from two
/// well-formed rationals, before reduction.
proof fn lemma_rat_raw_bounds(a: Rat, b: Rat)
    requires
        a.wf(),
        b.wf(),
    ensures
        i128::MIN < (a.num as int) * (b.den as int) + (b.num as int) * (a.den as int)
            <= i128::MAX,
        i128::MIN < (a.num as int) * (b.den as int) - (b.num as int) * (a.den as int)
            <= i128::MAX,
        i128::MIN < (a.num as int) * (b.num as int) <= i128::MAX,
        i128::MIN < -((a.num as int) * (b.den as int)) <= i128::MAX,
        1 <= (a.den as int) * (b.den as int) <= i128::MAX,
        b.num > 0 ==> 1 <= (a.den as int) * (b.num as int) <= i128::MAX,
        b.num < 0 ==> 1 <= -((a.den as int) * (b.num as int)) <= i128::MAX
            && i128::MIN < (a.den as int) * (b.num as int),
{
    let w = i64::MAX as int;
    assert(-(w * w) <= (a.num as int) * (b.den as int) <= w * w) by (nonlinear_arith)
        requires
            -w <= a.num as int <= w,
            1 <= b.den as int <= w,
    ;
    assert(-(w * w) <= (b.num as int) * (a.den as int) <= w * w) by (nonlinear_arith)
        requires
            -w <= b.num as int <= w,
            1 <= a.den as int <= w,
    ;
    assert(-(w * w) <= (a.num as int) * (b.num as int) <= w * w) by (nonlinear_arith)
        requires
            -w <= a.num as int <= w,
            -w <= b.num as int <= w,
    ;
    assert(1 <= (a.den as int) * (b.den as int) <= w * w) by (nonlinear_arith)
        requires
            1 <= a.den as int <= w,
            1 <= b.den as int <= w,
    ;
    assert(-(w * w) <= (a.den as int) * (b.num as int) <= w * w) by (nonlinear_arith)
        requires
            1 <= a.den as int <= w,
            -w <= b.num as int <= w,
    ;
    assert(b.num > 0 ==> 1 <= (a.den as int) * (b.num as int)) by (nonlinear_arith)
        requires
            1 <= a.den as int,
    ;
    assert(b.num < 0 ==> (a.den as int) * (b.num as int) <= -1) by (nonlinear_arith)
        requires
            1 <= a.den as int,
    ;
}

/// The reduced form of `n / d` for `d > 0`, when it exists, is well-formed
/// and has the value `n / d`.
pub proof fn lemma_norm_props(n: int, d: int)
    requires
        d > 0,
    ensures
        Rat::norm_spec(n, d) matches Some(q) ==> q.wf() && q.is_frac(n, d),
{
    let m = iabs(n) as int;
    let g = gcd(iabs(n), d as nat) as int;
    lemma_gcd_pos(iabs(n), d as nat);
    lemma_gcd_divides(iabs(n), d as nat);
    lemma_div_exact(iabs(n), gcd(iabs(n), d as nat));
    lemma_div_exact(d as nat, gcd(iabs(n), d as nat));
    let kn = m / g;
    let kd = d / g;
    assert(g * kn == m && g * kd == d);
    assert(kd > 0) by (nonlinear_arith)
        requires
            g * kd == d,
            d > 0,
            g > 0,
    ;
    let n2 = n / g;
    if n < 0 {
        assert(g * (-kn) == n) by (nonlinear_arith)
            requires
                g * kn == m,
                m == -n,
        ;
        lemma_div_multiples_vanish(-kn, g);
        assert(n2 == -kn);
    } else {
        lemma_div_multiples_vanish(kn, g);
        assert(n2 == kn);
    }
    lemma_div_multiples_vanish(kd, g);
    assert(d / g == kd);
    // The cofactors are coprime: a common divisor e of kn and kd makes
    // e * g a common divisor of |n| and d, so e divides 1.
    let e = gcd(kn as nat, kd as nat);
    lemma_gcd_pos(kn as nat, kd as nat);
    lemma_gcd_divides(kn as nat, kd as nat);
    let kn2 = choose|k: int| kn == #[trigger] ((e as int) * k);
    let kd2 = choose|k: int| kd == #[trigger] ((e as int) * k);
    assert(m == (g * (e as int)) * kn2) by (nonlinear_arith)
        requires
            m == g * kn,
            kn == (e as int) * kn2,
    ;
    assert(d == (g * (e as int)) * kd2) by (nonlinear_arith)
        requires
            d == g * kd,
            kd == (e as int) * kd2,
    ;
    lemma_divides_mul(g * (e as int), kn2);
    lemma_divides_mul(g * (e as int), kd2);
    lemma_gcd_greatest(g * (e as int), iabs(n), d as nat);
    let t = choose|k: int| g == #[trigger] ((g * (e as int)) * k);
    assert(e == 1) by (nonlinear_arith)
        requires
            g == (g * (e as int)) * t,
            g > 0,
            e > 0,
    ;
    if Rat::norm_spec(n, d) is Some {
        let q = Rat::norm_spec(n, d)->Some_0;
        assert(q.num as int == n2 && q.den as int == kd);
        assert(iabs(q.num as int) == kn as nat);
        assert(q.is_frac(n, d)) by (nonlinear_arith)
            requires
                q.num as int == n2,
                n2 == if n < 0 { -kn } else { kn },
                m == g * kn,
                d == g * kd,
                m == if n < 0 { -n } else { n },
                q.den as int == kd,
        ;
    }
}

} // verus!
