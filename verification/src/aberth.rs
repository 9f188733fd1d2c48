//! Aberth's simultaneous root iteration in exact rational complex
//! arithmetic: the pairwise separation sum, the per-root correction, one
//! synchronous step over a snapshot of all approximations with rounding to
//! the working precision, a fixed iteration budget, the post-loop residual
//! check, and the full factoring pipeline.

use vstd::prelude::*;
use crate::complex::{rat_zero, Cplx};
use crate::polynomial::{deriv_seq, eval_horner, Polynomial};
use crate::rational::{frac_le, Rat};
use crate::rationalize::{den_bound, near_num, rationalize, rationalize_spec, round_den};
use crate::random::sample_range;

verus! {

/// Why a factoring request failed.
#[derive(Clone, Copy, Debug, PartialEq, Eq, Structural)]
pub enum FactorError {
    /// The derivative vanished at a current approximation, so the Newton
    /// ratio is undefined.
    DegenerateDerivative,
    /// Two approximations became equal, so a separation term divides by
    /// zero.
    CoincidentApproximations,
    /// A converged approximation has no representable snap within the
    /// denominator bound.
    NonRationalizable,
    /// The correction's denominator `1 - (P/P') * S` vanished.
    SingularCorrection,
    /// An intermediate value left the representable range.
    NotRepresentable,
}

/// The complex one.
pub open spec fn cplx_one() -> Cplx {
    Cplx { re: Rat { num: 1, den: 1 }, im: rat_zero() }
}

/// Every approximation in the sequence is well-formed.
pub open spec fn all_wf(zs: Seq<Cplx>) -> bool {
    forall|i: int| 0 <= i < zs.len() ==> #[trigger] zs[i].wf()
}

/// The partial separation sum `sum over j < n, j != k of 1 / (zs[k] - zs[j])`,
/// `None` when a term is unrepresentable or two approximations coincide.
pub open spec fn offset_sum_spec(zs: Seq<Cplx>, k: int, n: int) -> Option<Cplx>
    decreases n,
{
    if n <= 0 {
        Some(Cplx { re: rat_zero(), im: rat_zero() })
    } else {
        match offset_sum_spec(zs, k, n - 1) {
            Some(acc) => if n - 1 == k {
                Some(acc)
            } else {
                match Cplx::sub_spec(zs[k], zs[n - 1]) {
                    Some(d) => match Cplx::div_spec(cplx_one(), d) {
                        Some(t) => Cplx::add_spec(acc, t),
                        None => None,
                    },
                    None => None,
                }
            },
            None => None,
        }
    }
}

/// A failed partial sum stays failed as further terms are added.
proof fn lemma_offset_sum_none(zs: Seq<Cplx>, k: int, n: int, m: int)
    requires
        0 <= n <= m,
        offset_sum_spec(zs, k, n) is None,
    ensures
        offset_sum_spec(zs, k, m) is None,
    decreases m - n,
{
    if n < m {
        lemma_offset_sum_none(zs, k, n + 1, m);
    }
}

/// The Aberth correction for root slot `k`:
/// `w = t1 / (1 - t1 * S)` with `t1 = P(z_k) / P'(z_k)` and `S` the
/// separation sum, each failure classified.
pub open spec fn offset_spec(cs: Seq<Rat>, zs: Seq<Cplx>, k: int) -> Result<Cplx, FactorError> {
    if exists|j: int| 0 <= j < zs.len() && j != k && zs[j] == zs[k] {
        Err(FactorError::CoincidentApproximations)
    } else {
        let pv = eval_horner(cs, zs[k]);
        let dv = match deriv_seq(cs) {
            Some(dc) => eval_horner(dc, zs[k]),
            None => None::<Cplx>,
        };
        if pv is None || dv is None {
            Err(FactorError::NotRepresentable)
        } else if dv->Some_0.is_zero_val() {
            Err(FactorError::DegenerateDerivative)
        } else {
            match Cplx::div_spec(pv->Some_0, dv->Some_0) {
                None => Err(FactorError::NotRepresentable),
                Some(t1) => match offset_sum_spec(zs, k, zs.len() as int) {
                    None => Err(FactorError::NotRepresentable),
                    Some(s) => match Cplx::mul_spec(t1, s) {
                        None => Err(FactorError::NotRepresentable),
                        Some(ts) => match Cplx::sub_spec(cplx_one(), ts) {
                            None => Err(FactorError::NotRepresentable),
                            Some(dnm) => if dnm.is_zero_val() {
                                Err(FactorError::SingularCorrection)
                            } else {
                                match Cplx::div_spec(t1, dnm) {
                                    Some(w) => Ok(w),
                                    None => Err(FactorError::NotRepresentable),
                                }
                            },
                        },
                    },
                },
            }
        }
    }
}

/// One new approximation: the correction subtracted from the old value,
/// both coordinates rounded to the working precision `prec`.
pub open spec fn step_one_spec(cs: Seq<Rat>, zs: Seq<Cplx>, prec: int, k: int) -> Result<
    Cplx,
    FactorError,
> {
    match offset_spec(cs, zs, k) {
        Ok(w) => match Cplx::sub_spec(zs[k], w) {
            Some(z1) => match (
                Rat::norm_spec(near_num(z1.re, prec), prec),
                Rat::norm_spec(near_num(z1.im, prec), prec),
            ) {
                (Some(re), Some(im)) => Ok(Cplx { re, im }),
                _ => Err(FactorError::NotRepresentable),
            },
            None => Err(FactorError::NotRepresentable),
        },
        Err(e) => Err(e),
    }
}

/// The first `k` entries of a synchronous step: every correction reads the
/// same snapshot `zs`, and the earliest failure wins.
pub open spec fn step_upto_spec(cs: Seq<Rat>, zs: Seq<Cplx>, prec: int, k: int) -> Result<
    Seq<Cplx>,
    FactorError,
>
    decreases k,
{
    if k <= 0 {
        Ok(Seq::empty())
    } else {
        match step_upto_spec(cs, zs, prec, k - 1) {
            Ok(s) => match step_one_spec(cs, zs, prec, k - 1) {
                Ok(z) => Ok(s.push(z)),
                Err(e) => Err(e),
            },
            Err(e) => Err(e),
        }
    }
}

/// One full synchronous Aberth step over all approximations.
pub open spec fn step_spec(cs: Seq<Rat>, zs: Seq<Cplx>, prec: int) -> Result<
    Seq<Cplx>,
    FactorError,
> {
    step_upto_spec(cs, zs, prec, zs.len() as int)
}

/// A failed partial step stays failed as further slots are added.
proof fn lemma_step_upto_err(cs: Seq<Rat>, zs: Seq<Cplx>, prec: int, n: int, m: int)
    requires
        0 <= n <= m,
        step_upto_spec(cs, zs, prec, n) is Err,
    ensures
        step_upto_spec(cs, zs, prec, m) == step_upto_spec(cs, zs, prec, n),
    decreases m - n,
{
    if n < m {
        lemma_step_upto_err(cs, zs, prec, n + 1, m);
    }
}

/// `iters` synchronous steps from `zs`, stopping at the first failure.
pub open spec fn iterate_spec(cs: Seq<Rat>, zs: Seq<Cplx>, prec: int, iters: nat) -> Result<
    Seq<Cplx>,
    FactorError,
>
    decreases iters,
{
    if iters == 0 {
        Ok(zs)
    } else {
        match step_spec(cs, zs, prec) {
            Ok(z2) => iterate_spec(cs, z2, prec, (iters - 1) as nat),
            Err(e) => Err(e),
        }
    }
}

/// The residual test at one approximation: the polynomial's value there
/// has squared magnitude at most `tol` squared. Any unrepresentable
/// intermediate counts as a failed test.
pub open spec fn root_residual_ok(cs: Seq<Rat>, z: Cplx, tol: Rat) -> bool {
    match eval_horner(cs, z) {
        Some(v) => match Cplx::norm_sq_spec(v) {
            Some(m) => match Rat::mul_spec(tol, tol) {
                Some(t2) => frac_le(m.num as int, m.den as int, t2.num as int, t2.den as int),
                None => false,
            },
            None => false,
        },
        None => false,
    }
}

/// Every approximation passes the residual test.
pub open spec fn converged_spec(cs: Seq<Rat>, zs: Seq<Cplx>, tol: Rat) -> bool {
    forall|k: int| 0 <= k < zs.len() ==> root_residual_ok(cs, #[trigger] zs[k], tol)
}

/// The full factoring pipeline on a coefficient sequence: iterate from the
/// given start, classify convergence by the residual test, and snap each
/// approximation's real part. A degree-zero polynomial has no roots.
pub open spec fn factor_spec(
    cs: Seq<Rat>,
    init: Seq<Cplx>,
    prec: int,
    iters: nat,
    tol: Rat,
    max_den: int,
) -> Result<(Seq<Rat>, Seq<Cplx>, bool), FactorError> {
    if cs.len() <= 1 {
        Ok((Seq::empty(), Seq::empty(), true))
    } else {
        match iterate_spec(cs, init, prec, iters) {
            Ok(zs) => if forall|k: int|
                0 <= k < zs.len() ==> rationalize_spec(#[trigger] zs[k].re, max_den) is Some {
                Ok(
                    (
                        Seq::new(zs.len(), |k: int| rationalize_spec(zs[k].re, max_den)->Some_0),
                        zs,
                        converged_spec(cs, zs, tol),
                    ),
                )
            } else {
                Err(FactorError::NonRationalizable)
            },
            Err(e) => Err(e),
        }
    }
}

/// The result of a factoring request: the snapped rational roots, the raw
/// converged approximations they came from, and the residual verdict.
#[derive(Clone, Debug, PartialEq, Eq)]
pub struct Factoring {
    pub roots: Vec<Rat>,
    pub approximations: Vec<Cplx>,
    pub converged: bool,
}

/// The separation sum for slot `k` over the whole snapshot.
fn offset_sum(zs: &Vec<Cplx>, k: usize) -> (r: Option<Cplx>)
    requires
        all_wf(zs@),
        k < zs@.len(),
    ensures
        r == offset_sum_spec(zs@, k as int, zs@.len() as int),
        r matches Some(c) ==> c.wf(),
{
    let mut acc = Cplx::zero();
    let mut j: usize = 0;
    while j < zs.len()
        invariant
            all_wf(zs@),
            k < zs@.len(),
            j <= zs@.len(),
            acc.wf(),
            Some(acc) == offset_sum_spec(zs@, k as int, j as int),
        decreases zs@.len() - j,
    {
        if j != k {
            let d = match zs[k].sub(zs[j]) {
                Some(d) => d,
                None => {
                    proof {
                        lemma_offset_sum_none(zs@, k as int, j + 1, zs@.len() as int);
                    }
                    return None;
                },
            };
            let one = Cplx::from_int(1);
            proof {
                assert(one == cplx_one());
            }
            let t = match one.div(d) {
                Some(t) => t,
                None => {
                    proof {
                        lemma_offset_sum_none(zs@, k as int, j + 1, zs@.len() as int);
                    }
                    return None;
                },
            };
            acc = match acc.add(t) {
                Some(v) => v,
                None => {
                    proof {
                        lemma_offset_sum_none(zs@, k as int, j + 1, zs@.len() as int);
                    }
                    return None;
                },
            };
        }
        j += 1;
    }
    Some(acc)
}

impl Polynomial {
    /// The Aberth correction for root slot `k`, against the snapshot `zs`:
    /// `[P(z_k)/P'(z_k)] / (1 - [P(z_k)/P'(z_k)] * S_k)`, each failure
    /// classified as the error taxonomy says.
    pub fn offset_number(&self, zs: &Vec<Cplx>, k: usize) -> (r: Result<Cplx, FactorError>)
        requires
            self.wf(),
            all_wf(zs@),
            k < zs@.len(),
        ensures
            r == offset_spec(self.coefficients@, zs@, k as int),
            r matches Ok(w) ==> w.wf(),
    {
        let mut j: usize = 0;
        while j < zs.len()
            invariant
                all_wf(zs@),
                k < zs@.len(),
                j <= zs@.len(),
                forall|i: int| 0 <= i < j ==> !(i != k && zs@[i] == zs@[k as int]),
            decreases zs@.len() - j,
        {
            if j != k && zs[j] == zs[k] {
                return Err(FactorError::CoincidentApproximations);
            }
            j += 1;
        }
        assert(!(exists|i: int| 0 <= i < zs@.len() && i != k && zs@[i] == zs@[k as int]));
        let zk = zs[k];
        let pv = match self.eval_at(zk) {
            Some(v) => v,
            None => {
                return Err(FactorError::NotRepresentable);
            },
        };
        let dv = match self.deriv_at(zk) {
            Some(v) => v,
            None => {
                return Err(FactorError::NotRepresentable);
            },
        };
        if dv.is_zero() {
            return Err(FactorError::DegenerateDerivative);
        }
        let t1 = match pv.div(dv) {
            Some(t) => t,
            None => {
                return Err(FactorError::NotRepresentable);
            },
        };
        let s = match offset_sum(zs, k) {
            Some(s) => s,
            None => {
                return Err(FactorError::NotRepresentable);
            },
        };
        let ts = match t1.mul(s) {
            Some(v) => v,
            None => {
                return Err(FactorError::NotRepresentable);
            },
        };
        let one = Cplx::from_int(1);
        proof {
            assert(one == cplx_one());
        }
        let dnm = match one.sub(ts) {
            Some(v) => v,
            None => {
                return Err(FactorError::NotRepresentable);
            },
        };
        if dnm.is_zero() {
            return Err(FactorError::SingularCorrection);
        }
        match t1.div(dnm) {
            Some(w) => Ok(w),
            None => Err(FactorError::NotRepresentable),
        }
    }

    /// One synchronous Aberth step: every correction is computed against
    /// the same snapshot, subtracted, and the result rounded to the
    /// working precision `prec`.
    #[verifier::rlimit(80)]
    pub fn aberth_step(&self, zs: &Vec<Cplx>, prec: i64) -> (r: Result<Vec<Cplx>, FactorError>)
        requires
            self.wf(),
            all_wf(zs@),
            1 <= prec <= den_bound(),
        ensures
            r matches Ok(v) ==> Ok::<Seq<Cplx>, FactorError>(v@) == step_spec(self.coefficients@, zs@, prec as int)
                && all_wf(v@) && v@.len() == zs@.len(),
            r matches Err(e) ==> step_spec(self.coefficients@, zs@, prec as int) == Err::<
                Seq<Cplx>,
                FactorError,
            >(e),
    {
        let mut out: Vec<Cplx> = Vec::new();
        let mut k: usize = 0;
        while k < zs.len()
            invariant
                self.wf(),
                all_wf(zs@),
                1 <= prec <= den_bound(),
                k <= zs@.len(),
                out@.len() == k,
                all_wf(out@),
                Ok::<Seq<Cplx>, FactorError>(out@) == step_upto_spec(self.coefficients@, zs@, prec as int, k as int),
            decreases zs@.len() - k,
        {
            let w = match self.offset_number(zs, k) {
                Ok(w) => w,
                Err(e) => {
                    proof {
                        lemma_step_upto_err(self.coefficients@, zs@, prec as int, k + 1, zs@.len() as int);
                    }
                    return Err(e);
                },
            };
            let z1 = match zs[k].sub(w) {
                Some(z) => z,
                None => {
                    proof {
                        lemma_step_upto_err(self.coefficients@, zs@, prec as int, k + 1, zs@.len() as int);
                    }
                    return Err(FactorError::NotRepresentable);
                },
            };
            let re = round_den(z1.re, prec);
            let im = round_den(z1.im, prec);
            match (re, im) {
                (Some(re), Some(im)) => out.push(Cplx { re, im }),
                _ => {
                    proof {
                        lemma_step_upto_err(self.coefficients@, zs@, prec as int, k + 1, zs@.len() as int);
                    }
                    return Err(FactorError::NotRepresentable);
                },
            }
            k += 1;
        }
        Ok(out)
    }

    /// Run the fixed budget of synchronous steps, stopping at the first
    /// classified failure.
    #[verifier::rlimit(80)]
    pub fn iterate(&self, init: Vec<Cplx>, prec: i64, iters: u32) -> (r: Result<
        Vec<Cplx>,
        FactorError,
    >)
        requires
            self.wf(),
            all_wf(init@),
            1 <= prec <= den_bound(),
        ensures
            r matches Ok(v) ==> Ok::<Seq<Cplx>, FactorError>(v@) == iterate_spec(
                self.coefficients@,
                init@,
                prec as int,
                iters as nat,
            ) && all_wf(v@) && v@.len() == init@.len(),
            r matches Err(e) ==> iterate_spec(self.coefficients@, init@, prec as int, iters as nat)
                == Err::<Seq<Cplx>, FactorError>(e),
    {
        let mut cur = init;
        let ghost init0 = cur@;
        proof {
            assert(init0 == init@);
        }
        let mut it: u32 = 0;
        while it < iters
            invariant
                self.wf(),
                all_wf(cur@),
                1 <= prec <= den_bound(),
                it <= iters,
                cur@.len() == init0.len(),
                init0 == init@,
                iterate_spec(self.coefficients@, cur@, prec as int, (iters - it) as nat)
                    == iterate_spec(self.coefficients@, init0, prec as int, iters as nat),
            decreases iters - it,
        {
            cur = match self.aberth_step(&cur, prec) {
                Ok(v) => v,
                Err(e) => {
                    proof {
                        let rem = (iters - it) as nat;
                        assert(rem >= 1);
                        assert(iterate_spec(self.coefficients@, cur@, prec as int, rem)
                            == Err::<Seq<Cplx>, FactorError>(e));
                    }
                    return Err(e);
                },
            };
            it += 1;
        }
        Ok(cur)
    }

    /// The post-loop residual check: every approximation evaluates to a
    /// value of squared magnitude at most `tol` squared.
    pub fn residuals_within(&self, zs: &Vec<Cplx>, tol: Rat) -> (r: bool)
        requires
            self.wf(),
            all_wf(zs@),
            tol.wf(),
        ensures
            r == converged_spec(self.coefficients@, zs@, tol),
    {
        let mut k: usize = 0;
        while k < zs.len()
            invariant
                self.wf(),
                all_wf(zs@),
                tol.wf(),
                k <= zs@.len(),
                forall|i: int| 0 <= i < k ==> root_residual_ok(
                    self.coefficients@,
                    #[trigger] zs@[i],
                    tol,
                ),
            decreases zs@.len() - k,
        {
            let v = match self.eval_at(zs[k]) {
                Some(v) => v,
                None => {
                    return false;
                },
            };
            let m = match v.norm_sq() {
                Some(m) => m,
                None => {
                    return false;
                },
            };
            let t2 = match tol.mul(tol) {
                Some(t) => t,
                None => {
                    return false;
                },
            };
            if !m.le(t2) {
                return false;
            }
            k += 1;
        }
        true
    }

    /// Factor from the given initial approximations: run the budgeted
    /// iteration, classify convergence by the residual test, and snap each
    /// approximation's real part to the simplest fraction within
    /// `max_den`. The imaginary parts are discarded by the snap, as the
    /// rendering convention asks.
    #[verifier::rlimit(80)]
    pub fn factor_with_init(
        &self,
        init: Vec<Cplx>,
        prec: i64,
        iters: u32,
        tol: Rat,
        max_den: i64,
    ) -> (r: Result<Factoring, FactorError>)
        requires
            self.wf(),
            all_wf(init@),
            init@.len() == self.degree,
            tol.wf(),
            1 <= prec <= den_bound(),
            1 <= max_den <= den_bound(),
        ensures
            r matches Ok(f) ==> factor_spec(
                self.coefficients@,
                init@,
                prec as int,
                iters as nat,
                tol,
                max_den as int,
            ) == Ok::<_, FactorError>((f.roots@, f.approximations@, f.converged))
                && f.roots@.len() == self.degree && (forall|i: int|
                0 <= i < f.roots@.len() ==> (#[trigger] f.roots@[i]).wf() && f.roots@[i].den
                    <= max_den),
            r matches Err(e) ==> factor_spec(
                self.coefficients@,
                init@,
                prec as int,
                iters as nat,
                tol,
                max_den as int,
            ) == Err::<(Seq<Rat>, Seq<Cplx>, bool), FactorError>(e),
    {
        let ghost init0 = init@;
        if self.degree == 0 {
            let f = Factoring { roots: Vec::new(), approximations: Vec::new(), converged: true };
            proof {
                assert(f.roots@ =~= Seq::<Rat>::empty());
                assert(f.approximations@ =~= Seq::<Cplx>::empty());
            }
            return Ok(f);
        }
        let zs = match self.iterate(init, prec, iters) {
            Ok(z) => z,
            Err(e) => {
                return Err(e);
            },
        };
        let conv = self.residuals_within(&zs, tol);
        let mut roots: Vec<Rat> = Vec::new();
        let mut k: usize = 0;
        while k < zs.len()
            invariant
                self.wf(),
                all_wf(zs@),
                tol.wf(),
                1 <= max_den <= den_bound(),
                self.degree >= 1,
                init0 == init@,
                Ok::<Seq<Cplx>, FactorError>(zs@) == iterate_spec(
                    self.coefficients@,
                    init0,
                    prec as int,
                    iters as nat,
                ),
                conv == converged_spec(self.coefficients@, zs@, tol),
                zs@.len() == init0.len(),
                init0.len() == self.degree,
                k <= zs@.len(),
                roots@.len() == k,
                forall|i: int| 0 <= i < k ==> rationalize_spec(#[trigger] zs@[i].re, max_den as int)
                    is Some && roots@[i] == rationalize_spec(zs@[i].re, max_den as int)->Some_0
                    && roots@[i].wf() && roots@[i].den <= max_den,
            decreases zs@.len() - k,
        {
            proof {
                assert(zs@[k as int].wf());
            }
            match rationalize(zs[k].re, max_den) {
                Some(y) => roots.push(y),
                None => {
                    proof {
                        assert(rationalize_spec(zs@[k as int].re, max_den as int) is None);
                        assert(!(forall|i: int|
                            0 <= i < zs@.len() ==> rationalize_spec(
                                #[trigger] zs@[i].re,
                                max_den as int,
                            ) is Some));
                    }
                    return Err(FactorError::NonRationalizable);
                },
            }
            k += 1;
        }
        proof {
            let spec_roots = Seq::new(
                zs@.len(),
                |k: int| rationalize_spec(zs@[k].re, max_den as int)->Some_0,
            );
            assert(roots@ =~= spec_roots);
        }
        Ok(Factoring { roots, approximations: zs, converged: conv })
    }

    /// The default residual tolerance of the factoring entry point.
    pub open spec fn default_tol() -> Rat {
        Rat { num: 1, den: 1000 }
    }

    /// Factor with fresh random initial approximations, the fixed budget
    /// of one hundred steps, and the default precision, tolerance and
    /// snap bound. Whatever the random start was, a success returns one
    /// snapped root per degree unit, produced by the same pipeline.
    pub fn factors(&self) -> (r: Result<Factoring, FactorError>)
        requires
            self.wf(),
        ensures
            r matches Ok(f) ==> f.roots@.len() == self.degree && (forall|i: int|
                0 <= i < f.roots@.len() ==> (#[trigger] f.roots@[i]).wf() && f.roots@[i].den
                    <= 100) && (exists|init: Seq<Cplx>|
                all_wf(init) && init.len() == self.degree && factor_spec(
                    self.coefficients@,
                    init,
                    0x4000,
                    100,
                    Self::default_tol(),
                    100,
                ) == Ok::<_, FactorError>((f.roots@, f.approximations@, f.converged))),
            r matches Err(e) ==> (exists|init: Seq<Cplx>|
                all_wf(init) && init.len() == self.degree && factor_spec(
                    self.coefficients@,
                    init,
                    0x4000,
                    100,
                    Self::default_tol(),
                    100,
                ) == Err::<(Seq<Rat>, Seq<Cplx>, bool), FactorError>(e)),
    {
        let mut init: Vec<Cplx> = Vec::new();
        let mut k: usize = 0;
        while k < self.degree
            invariant
                all_wf(init@),
                init@.len() == k,
                k <= self.degree,
            decreases self.degree - k,
        {
            let re = random_coordinate();
            let im = random_coordinate();
            init.push(Cplx::new(re, im));
            k += 1;
        }
        let tol = Rat { num: 1, den: 1000 };
        proof {
            crate::arith::lemma_gcd_one_left(1000);
            assert(tol.wf());
            assert(tol == Self::default_tol());
        }
        let ghost chosen = init@;
        let r = self.factor_with_init(init, 0x4000, 100, tol, 100);
        proof {
            match &r {
                Ok(f) => {
                    assert(all_wf(chosen) && chosen.len() == self.degree && factor_spec(
                        self.coefficients@,
                        chosen,
                        0x4000,
                        100,
                        Self::default_tol(),
                        100,
                    ) == Ok::<_, FactorError>((f.roots@, f.approximations@, f.converged)));
                },
                Err(e) => {
                    assert(all_wf(chosen) && chosen.len() == self.degree && factor_spec(
                        self.coefficients@,
                        chosen,
                        0x4000,
                        100,
                        Self::default_tol(),
                        100,
                    ) == Err::<(Seq<Rat>, Seq<Cplx>, bool), FactorError>(*e));
                },
            }
        }
        r
    }
}

/// One random coordinate: a sixteenth-steps sample covering `[-10, 10]`,
/// matching the symmetric seeding range of the iteration.
fn random_coordinate() -> (r: Rat)
    ensures
        r.wf(),
{
    let v = sample_range(-160, 161);
    match Rat::new_reduced(v as i128, 16) {
        Some(r) => r,
        None => Rat::from_int(0),
    }
}

} // verus!
