//! Polynomials with exact rational coefficients: construction from parsed
//! terms, Horner evaluation at a complex point, and the derivative and
//! integral transforms.

use vstd::prelude::*;
use crate::command::Term;
use crate::complex::{rat_zero, Cplx};
use crate::rational::Rat;

verus! {

/// The rational with integer value `n`.
pub open spec fn rat_int(n: int) -> Rat {
    Rat { num: n as i64, den: 1 }
}

/// A polynomial: `coefficients[i]` is the coefficient of `x^i`, and the
/// vector has exactly `degree + 1` entries. `unspecified` records that the
/// polynomial came from an integral and carries an arbitrary constant.
#[derive(Clone, Debug, PartialEq, Eq)]
pub struct Polynomial {
    pub degree: usize,
    pub coefficients: Vec<Rat>,
    pub unspecified: bool,
}

/// Horner evaluation of `sum coefficients[i] * z^i` in canonical rational
/// complex arithmetic; `None` when an intermediate is unrepresentable.
pub open spec fn eval_horner(cs: Seq<Rat>, z: Cplx) -> Option<Cplx>
    decreases cs.len(),
{
    if cs.len() == 0 {
        Some(Cplx { re: rat_zero(), im: rat_zero() })
    } else {
        match eval_horner(cs.subrange(1, cs.len() as int), z) {
            Some(t) => match Cplx::mul_spec(z, t) {
                Some(m) => Cplx::add_spec(Cplx { re: cs[0], im: rat_zero() }, m),
                None => None,
            },
            None => None,
        }
    }
}

/// The coefficient sequence of the derivative: `(i+1) * coefficients[i+1]`
/// for each `i`, the constant term dropped; a degree-zero polynomial has
/// the all-zero derivative. `None` when a product is unrepresentable.
pub open spec fn deriv_seq(cs: Seq<Rat>) -> Option<Seq<Rat>> {
    if cs.len() <= 1 {
        Some(seq![rat_zero()])
    } else if forall|i: int|
        0 <= i < cs.len() - 1 ==> #[trigger] Rat::mul_spec(rat_int(i + 1), cs[i + 1]) is Some {
        Some(
            Seq::new(
                (cs.len() - 1) as nat,
                |i: int| Rat::mul_spec(rat_int(i + 1), cs[i + 1])->Some_0,
            ),
        )
    } else {
        None
    }
}

/// The coefficient sequence of the integral: a fresh zero constant term,
/// then `coefficients[i] / (i+1)`. `None` when a quotient is
/// unrepresentable.
pub open spec fn integ_seq(cs: Seq<Rat>) -> Option<Seq<Rat>> {
    if forall|i: int|
        0 <= i < cs.len() ==> #[trigger] Rat::div_spec(cs[i], rat_int(i + 1)) is Some {
        Some(
            seq![rat_zero()] + Seq::new(
                cs.len(),
                |i: int| Rat::div_spec(cs[i], rat_int(i + 1))->Some_0,
            ),
        )
    } else {
        None
    }
}

/// The coefficient of `x^e` defined by a term list, later terms
/// overwriting earlier ones with the same exponent.
pub open spec fn coeff_of(terms: Seq<Term>, e: int) -> Rat
    decreases terms.len(),
{
    if terms.len() == 0 {
        rat_zero()
    } else if terms.last().exponent == e {
        rat_int(terms.last().coefficient as int)
    } else {
        coeff_of(terms.drop_last(), e)
    }
}

/// Once some suffix of the coefficients fails to evaluate, the whole
/// polynomial fails to evaluate.
proof fn lemma_horner_none(cs: Seq<Rat>, z: Cplx, j: int)
    requires
        0 <= j <= cs.len(),
        eval_horner(cs.subrange(j, cs.len() as int), z) is None,
    ensures
        eval_horner(cs, z) is None,
    decreases j,
{
    if j == 0 {
        assert(cs.subrange(0, cs.len() as int) =~= cs);
    } else {
        let s = cs.subrange(j - 1, cs.len() as int);
        assert(s.subrange(1, s.len() as int) =~= cs.subrange(j, cs.len() as int));
        lemma_horner_none(cs, z, j - 1);
    }
}

impl Polynomial {
    /// The structural invariant: one well-formed coefficient per degree
    /// unit plus the constant term, with a machine bound on the degree.
    pub open spec fn wf(&self) -> bool {
        &&& self.coefficients@.len() == self.degree + 1
        &&& self.degree <= 0x7fff_ffff
        &&& forall|i: int| 0 <= i < self.coefficients@.len() ==> #[trigger] self.coefficients@[i].wf()
    }

    /// Build the polynomial described by a parsed term list. The leading
    /// term fixes the degree; a repeated exponent keeps the last term.
    pub fn new(terms: Vec<Term>) -> (r: Polynomial)
        requires
            terms@.len() > 0,
            forall|j: int|
                0 <= j < terms@.len() ==> 0 <= #[trigger] terms@[j].exponent <= terms@[0].exponent,
        ensures
            r.wf(),
            !r.unspecified,
            r.degree == terms@[0].exponent,
            forall|e: int| 0 <= e < r.coefficients@.len() ==> #[trigger] r.coefficients@[e]
                == coeff_of(terms@, e),
    {
        let degree: usize = terms[0].exponent as usize;
        let mut cs: Vec<Rat> = Vec::new();
        let mut i: usize = 0;
        proof {
            assert(terms@.take(0) =~= Seq::<Term>::empty());
        }
        while i <= degree
            invariant
                degree <= 0x7fff_ffff,
                i <= degree + 1,
                cs@.len() == i,
                forall|e: int| 0 <= e < i ==> #[trigger] cs@[e] == rat_zero() && cs@[e].wf(),
            decreases degree + 1 - i,
        {
            let z = Rat::from_int(0);
            proof {
                assert(z == rat_zero());
            }
            cs.push(z);
            proof {
                assert(z.wf());
            }
            i += 1;
        }
        let mut t: usize = 0;
        while t < terms.len()
            invariant
                t <= terms@.len(),
                cs@.len() == degree + 1,
                degree == terms@[0].exponent,
                terms@.len() > 0,
                forall|j: int|
                    0 <= j < terms@.len() ==> 0 <= #[trigger] terms@[j].exponent
                        <= terms@[0].exponent,
                degree <= 0x7fff_ffff,
                forall|e: int| 0 <= e < cs@.len() ==> #[trigger] cs@[e] == coeff_of(
                    terms@.take(t as int),
                    e,
                ) && cs@[e].wf(),
            decreases terms@.len() - t,
        {
            let term = terms[t];
            let ghost old_cs = cs@;
            cs.set(term.exponent as usize, Rat::from_int(term.coefficient as i64));
            proof {
                assert(terms@.take(t + 1).drop_last() =~= terms@.take(t as int));
                assert(terms@.take(t + 1).last() == terms@[t as int]);
                assert forall|e: int| 0 <= e < cs@.len() implies #[trigger] cs@[e] == coeff_of(
                    terms@.take(t + 1),
                    e,
                ) by {
                    if e == term.exponent {
                    } else {
                        assert(cs@[e] == old_cs[e]);
                    }
                }
            }
            t += 1;
        }
        proof {
            assert(terms@.take(terms@.len() as int) =~= terms@);
        }
        Polynomial { degree, coefficients: cs, unspecified: false }
    }

    /// Horner evaluation of the polynomial at `z`, or `None` when an
    /// intermediate value is unrepresentable. The result is a function of
    /// the coefficients and the point alone.
    pub fn eval_at(&self, z: Cplx) -> (r: Option<Cplx>)
        requires
            self.wf(),
            z.wf(),
        ensures
            r == eval_horner(self.coefficients@, z),
            r matches Some(v) ==> v.wf(),
    {
        let ghost cs = self.coefficients@;
        let mut acc = Cplx::zero();
        let mut i: usize = self.coefficients.len();
        proof {
            assert(cs.subrange(i as int, cs.len() as int) =~= Seq::<Rat>::empty());
        }
        while i > 0
            invariant
                self.wf(),
                z.wf(),
                acc.wf(),
                cs == self.coefficients@,
                i <= cs.len(),
                Some(acc) == eval_horner(cs.subrange(i as int, cs.len() as int), z),
            decreases i,
        {
            i = i - 1;
            let ghost tail = cs.subrange(i + 1, cs.len() as int);
            proof {
                let s = cs.subrange(i as int, cs.len() as int);
                assert(s.subrange(1, s.len() as int) =~= tail);
                assert(s[0] == cs[i as int]);
            }
            let m = match z.mul(acc) {
                Some(v) => v,
                None => {
                    proof {
                        lemma_horner_none(cs, z, i as int);
                    }
                    return None;
                },
            };
            let c = Cplx::new(self.coefficients[i], Rat::from_int(0));
            acc = match c.add(m) {
                Some(v) => v,
                None => {
                    proof {
                        lemma_horner_none(cs, z, i as int);
                    }
                    return None;
                },
            };
        }
        proof {
            assert(cs.subrange(0, cs.len() as int) =~= cs);
        }
        Some(acc)
    }

    /// The derivative polynomial, or `None` when a scaled coefficient is
    /// unrepresentable. A degree-zero polynomial has the zero derivative.
    pub fn derivative(&self) -> (r: Option<Polynomial>)
        requires
            self.wf(),
        ensures
            r matches Some(q) ==> q.wf() && !q.unspecified && Some(q.coefficients@) == deriv_seq(
                self.coefficients@,
            ) && q.degree == if self.degree == 0 {
                0int
            } else {
                self.degree - 1
            },
            r is None <==> deriv_seq(self.coefficients@) is None,
    {
        if self.degree == 0 {
            let z = Rat::from_int(0);
            proof {
                assert(z == rat_zero());
            }
            let cs = vec![z];
            proof {
                assert(cs@ =~= seq![rat_zero()]);
            }
            return Some(Polynomial { degree: 0, coefficients: cs, unspecified: false });
        }
        let mut cs: Vec<Rat> = Vec::new();
        let mut i: usize = 1;
        while i <= self.degree
            invariant
                self.wf(),
                self.degree >= 1,
                1 <= i <= self.degree + 1,
                cs@.len() == i - 1,
                forall|j: int| 0 <= j < i - 1 ==> #[trigger] Rat::mul_spec(
                    rat_int(j + 1),
                    self.coefficients@[j + 1],
                ) is Some && cs@[j] == Rat::mul_spec(
                    rat_int(j + 1),
                    self.coefficients@[j + 1],
                )->Some_0 && cs@[j].wf(),
            decreases self.degree - i + 1,
        {
            let k = Rat::from_int(i as i64);
            proof {
                assert(k == rat_int(i as int));
            }
            match k.mul(self.coefficients[i]) {
                Some(v) => cs.push(v),
                None => {
                    proof {
                        let j = i as int - 1;
                        assert(Rat::mul_spec(rat_int(j + 1), self.coefficients@[j + 1]) is None);
                        assert(deriv_seq(self.coefficients@) is None);
                    }
                    return None;
                },
            }
            i += 1;
        }
        let q = Polynomial { degree: self.degree - 1, coefficients: cs, unspecified: false };
        proof {
            let dc = deriv_seq(self.coefficients@);
            assert(dc is Some);
            assert(q.coefficients@ =~= dc->Some_0);
        }
        Some(q)
    }

    /// The derivative evaluated at `z`: evaluation of the derivative
    /// coefficient sequence, which never reads the constant term.
    pub fn deriv_at(&self, z: Cplx) -> (r: Option<Cplx>)
        requires
            self.wf(),
            z.wf(),
        ensures
            r == (match deriv_seq(self.coefficients@) {
                Some(dc) => eval_horner(dc, z),
                None => None::<Cplx>,
            }),
            r matches Some(v) ==> v.wf(),
    {
        match self.derivative() {
            Some(d) => d.eval_at(z),
            None => None,
        }
    }

    /// The integral polynomial with zero constant term, marked as carrying
    /// an unspecified constant; `None` when a quotient is unrepresentable.
    pub fn integral(&self) -> (r: Option<Polynomial>)
        requires
            self.wf(),
            self.degree < 0x7fff_ffff,
        ensures
            r matches Some(q) ==> q.wf() && q.unspecified && Some(q.coefficients@) == integ_seq(
                self.coefficients@,
            ) && q.degree == self.degree + 1,
            r is None <==> integ_seq(self.coefficients@) is None,
    {
        let z = Rat::from_int(0);
        proof {
            assert(z == rat_zero());
        }
        let mut cs: Vec<Rat> = Vec::new();
        cs.push(z);
        let mut i: usize = 0;
        while i < self.coefficients.len()
            invariant
                self.wf(),
                i <= self.coefficients@.len(),
                cs@.len() == i + 1,
                cs@[0] == rat_zero(),
                self.degree < 0x7fff_ffff,
                forall|j: int| 0 <= j < cs@.len() ==> #[trigger] cs@[j].wf(),
                forall|j: int| 0 <= j < i ==> #[trigger] Rat::div_spec(
                    self.coefficients@[j],
                    rat_int(j + 1),
                ) is Some && cs@[j + 1] == Rat::div_spec(
                    self.coefficients@[j],
                    rat_int(j + 1),
                )->Some_0,
            decreases self.coefficients@.len() - i,
        {
            let k = Rat::from_int((i + 1) as i64);
            proof {
                assert(k == rat_int(i + 1));
            }
            match self.coefficients[i].div(k) {
                Some(v) => cs.push(v),
                None => {
                    proof {
                        assert(Rat::div_spec(self.coefficients@[i as int], rat_int(i + 1))
                            is None);
                    }
                    return None;
                },
            }
            i += 1;
        }
        let q = Polynomial { degree: self.degree + 1, coefficients: cs, unspecified: true };
        proof {
            let ic = integ_seq(self.coefficients@);
            assert(ic is Some);
            assert(q.coefficients@ =~= ic->Some_0);
        }
        Some(q)
    }
}

/// The derivative coefficients do not depend on the constant term: two
/// coefficient sequences that agree above index zero have the same
/// derivative sequence, whatever their constant terms are.
pub proof fn lemma_deriv_ignores_constant(cs1: Seq<Rat>, cs2: Seq<Rat>)
    requires
        cs1.len() == cs2.len(),
        forall|i: int| 1 <= i < cs1.len() ==> cs1[i] == cs2[i],
    ensures
        deriv_seq(cs1) == deriv_seq(cs2),
{
    if cs1.len() <= 1 {
    } else {
        assert(forall|i: int|
            0 <= i < cs1.len() - 1 ==> #[trigger] Rat::mul_spec(rat_int(i + 1), cs1[i + 1])
                == Rat::mul_spec(rat_int(i + 1), cs2[i + 1]));
        if deriv_seq(cs1) is Some && deriv_seq(cs2) is Some {
            assert(deriv_seq(cs1)->Some_0 =~= deriv_seq(cs2)->Some_0);
        }
    }
}

} // verus!
