//! Complex numbers with exact rational coordinates, and checked arithmetic
//! over them. Every operation returns the canonical (lowest-terms) result,
//! or `None` when a reduced coordinate does not fit the word range.

use vstd::prelude::*;
use crate::rational::Rat;

verus! {

/// A complex number with exact rational real and imaginary parts.
#[derive(Clone, Copy, Debug, PartialEq, Eq, Structural)]
pub struct Cplx {
    pub re: Rat,
    pub im: Rat,
}

/// The rational zero.
pub open spec fn rat_zero() -> Rat {
    Rat { num: 0, den: 1 }
}

impl Cplx {
    /// Both coordinates are well-formed rationals.
    pub open spec fn wf(self) -> bool {
        self.re.wf() && self.im.wf()
    }

    /// The value is zero (both coordinates zero).
    pub open spec fn is_zero_val(self) -> bool {
        self.re.num == 0 && self.im.num == 0
    }

    /// The canonical sum, when both coordinates are representable.
    pub open spec fn add_spec(a: Cplx, b: Cplx) -> Option<Cplx> {
        match (Rat::add_spec(a.re, b.re), Rat::add_spec(a.im, b.im)) {
            (Some(re), Some(im)) => Some(Cplx { re, im }),
            _ => None,
        }
    }

    /// The canonical difference, when both coordinates are representable.
    pub open spec fn sub_spec(a: Cplx, b: Cplx) -> Option<Cplx> {
        match (Rat::sub_spec(a.re, b.re), Rat::sub_spec(a.im, b.im)) {
            (Some(re), Some(im)) => Some(Cplx { re, im }),
            _ => None,
        }
    }

    /// The canonical product `(ar*br - ai*bi) + (ar*bi + ai*br) i`, when
    /// every intermediate is representable.
    pub open spec fn mul_spec(a: Cplx, b: Cplx) -> Option<Cplx> {
        match (
            Rat::mul_spec(a.re, b.re),
            Rat::mul_spec(a.im, b.im),
            Rat::mul_spec(a.re, b.im),
            Rat::mul_spec(a.im, b.re),
        ) {
            (Some(rr), Some(ii), Some(ri), Some(ir)) => match (
                Rat::sub_spec(rr, ii),
                Rat::add_spec(ri, ir),
            ) {
                (Some(re), Some(im)) => Some(Cplx { re, im }),
                _ => None,
            },
            _ => None,
        }
    }

    /// The squared magnitude `br*br + bi*bi`, when representable.
    pub open spec fn norm_sq_spec(b: Cplx) -> Option<Rat> {
        match (Rat::mul_spec(b.re, b.re), Rat::mul_spec(b.im, b.im)) {
            (Some(rr), Some(ii)) => Rat::add_spec(rr, ii),
            _ => None,
        }
    }

    /// The canonical quotient, by the conjugate: `a / b` has real part
    /// `(ar*br + ai*bi) / (br^2 + bi^2)` and imaginary part
    /// `(ai*br - ar*bi) / (br^2 + bi^2)`. `None` for a zero divisor or an
    /// unrepresentable intermediate.
    pub open spec fn div_spec(a: Cplx, b: Cplx) -> Option<Cplx> {
        match Self::norm_sq_spec(b) {
            Some(dn) => if dn.num == 0 {
                None
            } else {
                match (
                    Rat::mul_spec(a.re, b.re),
                    Rat::mul_spec(a.im, b.im),
                    Rat::mul_spec(a.im, b.re),
                    Rat::mul_spec(a.re, b.im),
                ) {
                    (Some(rr), Some(ii), Some(ir), Some(ri)) => match (
                        Rat::add_spec(rr, ii),
                        Rat::sub_spec(ir, ri),
                    ) {
                        (Some(nre), Some(nim)) => match (
                            Rat::div_spec(nre, dn),
                            Rat::div_spec(nim, dn),
                        ) {
                            (Some(re), Some(im)) => Some(Cplx { re, im }),
                            _ => None,
                        },
                        _ => None,
                    },
                    _ => None,
                }
            },
            None => None,
        }
    }

    /// The complex zero.
    pub fn zero() -> (r: Cplx)
        ensures
            r.wf(),
            r == (Cplx { re: rat_zero(), im: rat_zero() }),
    {
        let z = Rat::from_int(0);
        proof {
            assert(z == rat_zero());
        }
        Cplx { re: z, im: z }
    }

    /// The complex number with the given well-formed coordinates.
    pub fn new(re: Rat, im: Rat) -> (r: Cplx)
        requires
            re.wf(),
            im.wf(),
        ensures
            r.wf(),
            r.re == re,
            r.im == im,
    {
        Cplx { re, im }
    }

    /// The real complex number with value `n`.
    pub fn from_int(n: i64) -> (r: Cplx)
        requires
            n > i64::MIN,
        ensures
            r.wf(),
            r.re.num == n,
            r.re.den == 1,
            r.im == rat_zero(),
    {
        let r = Cplx { re: Rat::from_int(n), im: Rat::from_int(0) };
        proof {
            assert(r.im == rat_zero());
        }
        r
    }

    /// Whether the value is zero.
    pub fn is_zero(self) -> (r: bool)
        ensures
            r == self.is_zero_val(),
    {
        self.re.num == 0 && self.im.num == 0
    }

    /// Checked complex addition.
    pub fn add(self, other: Cplx) -> (r: Option<Cplx>)
        requires
            self.wf(),
            other.wf(),
        ensures
            r == Self::add_spec(self, other),
            r matches Some(c) ==> c.wf(),
    {
        match (self.re.add(other.re), self.im.add(other.im)) {
            (Some(re), Some(im)) => Some(Cplx { re, im }),
            _ => None,
        }
    }

    /// Checked complex subtraction.
    pub fn sub(self, other: Cplx) -> (r: Option<Cplx>)
        requires
            self.wf(),
            other.wf(),
        ensures
            r == Self::sub_spec(self, other),
            r matches Some(c) ==> c.wf(),
    {
        match (self.re.sub(other.re), self.im.sub(other.im)) {
            (Some(re), Some(im)) => Some(Cplx { re, im }),
            _ => None,
        }
    }

    /// Checked complex multiplication.
    pub fn mul(self, other: Cplx) -> (r: Option<Cplx>)
        requires
            self.wf(),
            other.wf(),
        ensures
            r == Self::mul_spec(self, other),
            r matches Some(c) ==> c.wf(),
    {
        match (
            self.re.mul(other.re),
            self.im.mul(other.im),
            self.re.mul(other.im),
            self.im.mul(other.re),
        ) {
            (Some(rr), Some(ii), Some(ri), Some(ir)) => match (rr.sub(ii), ri.add(ir)) {
                (Some(re), Some(im)) => Some(Cplx { re, im }),
                _ => None,
            },
            _ => None,
        }
    }

    /// Checked squared magnitude.
    pub fn norm_sq(self) -> (r: Option<Rat>)
        requires
            self.wf(),
        ensures
            r == Self::norm_sq_spec(self),
            r matches Some(q) ==> q.wf() && q.num >= 0 && (q.num > 0 <==> !self.is_zero_val()),
    {
        let r = match (self.re.mul(self.re), self.im.mul(self.im)) {
            (Some(rr), Some(ii)) => rr.add(ii),
            _ => None,
        };
        proof {
            if r is Some {
                lemma_norm_sq_sign(self);
            }
        }
        r
    }

    /// Checked complex division.
    pub fn div(self, other: Cplx) -> (r: Option<Cplx>)
        requires
            self.wf(),
            other.wf(),
        ensures
            r == Self::div_spec(self, other),
            r matches Some(c) ==> c.wf(),
    {
        let dn = match other.norm_sq() {
            Some(dn) => dn,
            None => {
                return None;
            },
        };
        if dn.num == 0 {
            return None;
        }
        match (
            self.re.mul(other.re),
            self.im.mul(other.im),
            self.im.mul(other.re),
            self.re.mul(other.im),
        ) {
            (Some(rr), Some(ii), Some(ir), Some(ri)) => match (rr.add(ii), ir.sub(ri)) {
                (Some(nre), Some(nim)) => match (nre.div(dn), nim.div(dn)) {
                    (Some(re), Some(im)) => Some(Cplx { re, im }),
                    _ => None,
                },
                _ => None,
            },
            _ => None,
        }
    }
}

/// The squared magnitude of a well-formed complex number is nonnegative,
/// and zero exactly when the number is zero.
pub proof fn lemma_norm_sq_sign(b: Cplx)
    requires
        b.wf(),
        Cplx::norm_sq_spec(b) is Some,
    ensures
        Cplx::norm_sq_spec(b) matches Some(q) ==> q.wf() && q.num >= 0 && (q.num > 0 <==> !b.is_zero_val()),
{
    let rr = Rat::mul_spec(b.re, b.re)->Some_0;
    let ii = Rat::mul_spec(b.im, b.im)->Some_0;
    let q = Cplx::norm_sq_spec(b)->Some_0;
    assert((b.re.den as int) * (b.re.den as int) > 0 && (b.im.den as int) * (b.im.den as int)
        > 0) by (nonlinear_arith)
        requires
            b.re.den > 0,
            b.im.den > 0,
    ;
    crate::rational::lemma_norm_props(
        (b.re.num as int) * (b.re.num as int),
        (b.re.den as int) * (b.re.den as int),
    );
    crate::rational::lemma_norm_props(
        (b.im.num as int) * (b.im.num as int),
        (b.im.den as int) * (b.im.den as int),
    );
    assert((rr.den as int) * (ii.den as int) > 0) by (nonlinear_arith)
        requires
            rr.den > 0,
            ii.den > 0,
    ;
    crate::rational::lemma_norm_props(
        (rr.num as int) * (ii.den as int) + (ii.num as int) * (rr.den as int),
        (rr.den as int) * (ii.den as int),
    );
    assert(rr.num >= 0 && (rr.num > 0 <==> b.re.num != 0)) by (nonlinear_arith)
        requires
            (rr.num as int) * ((b.re.den as int) * (b.re.den as int)) == ((b.re.num as int) * (
            b.re.num as int)) * (rr.den as int),
            rr.den > 0,
            (b.re.den as int) * (b.re.den as int) > 0,
    ;
    assert(ii.num >= 0 && (ii.num > 0 <==> b.im.num != 0)) by (nonlinear_arith)
        requires
            (ii.num as int) * ((b.im.den as int) * (b.im.den as int)) == ((b.im.num as int) * (
            b.im.num as int)) * (ii.den as int),
            ii.den > 0,
            (b.im.den as int) * (b.im.den as int) > 0,
    ;
    assert(q.num >= 0 && (q.num > 0 <==> (rr.num > 0 || ii.num > 0))) by (nonlinear_arith)
        requires
            (q.num as int) * ((rr.den as int) * (ii.den as int)) == ((rr.num as int) * (
            ii.den as int) + (ii.num as int) * (rr.den as int)) * (q.den as int),
            q.den > 0,
            rr.den > 0,
            ii.den > 0,
            rr.num >= 0,
            ii.num >= 0,
    ;
}

} // verus!
