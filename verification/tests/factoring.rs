use polyfactor::aberth::FactorError;
use polyfactor::complex::Cplx;
use polyfactor::polynomial::Polynomial;
use polyfactor::rational::Rat;
use polyfactor::render::render_factors;

fn rat(n: i64, d: i64) -> Rat {
    Rat { num: n, den: d }
}

fn quadratic() -> Polynomial {
    // x^2 + 3x + 2 = (x + 1)(x + 2)
    Polynomial {
        degree: 2,
        coefficients: vec![rat(2, 1), rat(3, 1), rat(1, 1)],
        unspecified: false,
    }
}

const PREC: i64 = 0x4000;

#[test]
fn factors_quadratic_to_exact_roots() {
    let p = quadratic();
    let init = vec![Cplx::from_int(0), Cplx::from_int(-10)];
    let f = p
        .factor_with_init(init, PREC, 100, rat(1, 1000), 1000)
        .unwrap();
    assert!(f.converged);
    let mut roots: Vec<(i64, i64)> = f.roots.iter().map(|r| (r.num, r.den)).collect();
    roots.sort();
    assert_eq!(roots, vec![(-2, 1), (-1, 1)]);
    assert_eq!(render_factors(&f.roots), "(x + 1)(x + 2)");
}

#[test]
fn degree_one_root_is_exact() {
    // 2x + 3 has the single root -3/2, found exactly in one step.
    let p = Polynomial {
        degree: 1,
        coefficients: vec![rat(3, 1), rat(2, 1)],
        unspecified: false,
    };
    let init = vec![Cplx::from_int(5)];
    let f = p
        .factor_with_init(init, PREC, 100, rat(1, 1000), 1000)
        .unwrap();
    assert!(f.converged);
    assert_eq!(f.roots, vec![rat(-3, 2)]);
    assert_eq!(f.approximations[0], Cplx::new(rat(-3, 2), rat(0, 1)));
    assert_eq!(render_factors(&f.roots), "(x + 3/2)");
}

#[test]
fn degree_one_positive_root() {
    // 3x - 12 has the root 4.
    let p = Polynomial {
        degree: 1,
        coefficients: vec![rat(-12, 1), rat(3, 1)],
        unspecified: false,
    };
    let init = vec![Cplx::from_int(0)];
    let f = p
        .factor_with_init(init, PREC, 100, rat(1, 1000), 1000)
        .unwrap();
    assert!(f.converged);
    assert_eq!(f.roots, vec![rat(4, 1)]);
    assert_eq!(render_factors(&f.roots), "(x - 4)");
}

#[test]
fn residual_check_accepts_converged_roots() {
    // The residual at each converged approximation of the quadratic is
    // below the tolerance.
    let p = quadratic();
    let init = vec![Cplx::from_int(0), Cplx::from_int(-10)];
    let f = p
        .factor_with_init(init, PREC, 100, rat(1, 1000), 1000)
        .unwrap();
    assert!(f.converged);
    assert!(p.residuals_within(&f.approximations, rat(1, 1000)));
    assert!(!p.residuals_within(&vec![Cplx::from_int(7)], rat(1, 1000)));
}

#[test]
fn degree_zero_has_no_factors() {
    let p = Polynomial {
        degree: 0,
        coefficients: vec![rat(5, 1)],
        unspecified: false,
    };
    let f = p
        .factor_with_init(Vec::new(), PREC, 100, rat(1, 1000), 1000)
        .unwrap();
    assert!(f.roots.is_empty());
    assert_eq!(render_factors(&f.roots), "");
}

#[test]
fn random_start_factors_quadratic() {
    // The randomly seeded entry point runs the same pipeline; a success
    // carries one root per degree unit.
    let p = quadratic();
    match p.factors() {
        Ok(f) => {
            assert_eq!(f.roots.len(), 2);
            if f.converged {
                let mut roots: Vec<(i64, i64)> = f.roots.iter().map(|r| (r.num, r.den)).collect();
                roots.sort();
                assert_eq!(roots, vec![(-2, 1), (-1, 1)]);
            }
        }
        Err(e) => {
            // A degenerate random start is classified, never a panic.
            assert!(matches!(
                e,
                FactorError::DegenerateDerivative
                    | FactorError::CoincidentApproximations
                    | FactorError::SingularCorrection
                    | FactorError::NotRepresentable
                    | FactorError::NonRationalizable
            ));
        }
    }
}

#[test]
fn zero_derivative_is_degenerate() {
    // 0x + 5 has an identically zero derivative.
    let p = Polynomial {
        degree: 1,
        coefficients: vec![rat(5, 1), rat(0, 1)],
        unspecified: false,
    };
    let init = vec![Cplx::from_int(1)];
    assert_eq!(
        p.factor_with_init(init, PREC, 100, rat(1, 1000), 1000),
        Err(FactorError::DegenerateDerivative)
    );
}

#[test]
fn equal_approximations_are_rejected() {
    let p = quadratic();
    let init = vec![Cplx::from_int(1), Cplx::from_int(1)];
    assert_eq!(
        p.factor_with_init(init, PREC, 100, rat(1, 1000), 1000),
        Err(FactorError::CoincidentApproximations)
    );
}

#[test]
fn vanishing_correction_denominator_is_reported() {
    // For x^2 from the start (2, 1): t1 = 4/4 = 1 and S = 1/(2-1) = 1,
    // so the correction denominator 1 - t1*S vanishes.
    let p = Polynomial {
        degree: 2,
        coefficients: vec![rat(0, 1), rat(0, 1), rat(1, 1)],
        unspecified: false,
    };
    let init = vec![Cplx::from_int(2), Cplx::from_int(1)];
    assert_eq!(
        p.factor_with_init(init, PREC, 100, rat(1, 1000), 1000),
        Err(FactorError::SingularCorrection)
    );
}

#[test]
fn overflowing_iteration_is_reported() {
    let p = quadratic();
    let init = vec![Cplx::from_int(1 << 40), Cplx::from_int(-10)];
    assert_eq!(
        p.factor_with_init(init, PREC, 100, rat(1, 1000), 1000),
        Err(FactorError::NotRepresentable)
    );
}
