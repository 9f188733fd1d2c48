use polyfactor::complex::Cplx;
use polyfactor::polynomial::Polynomial;
use polyfactor::rational::Rat;

fn rat(n: i64, d: i64) -> Rat {
    Rat { num: n, den: d }
}

fn get_test_polynomial() -> Polynomial {
    Polynomial {
        degree: 2,
        coefficients: vec![rat(2, 1), rat(3, 1), rat(1, 1)],
        unspecified: false,
    }
}

#[test]
fn test_eval_at() {
    let p = get_test_polynomial();

    assert_eq!(p.eval_at(Cplx::from_int(1)), Some(Cplx::from_int(6)));
    assert_eq!(p.eval_at(Cplx::from_int(0)), Some(Cplx::from_int(2)));
    assert_eq!(p.eval_at(Cplx::from_int(-1)), Some(Cplx::from_int(0)));
    assert_eq!(p.eval_at(Cplx::from_int(-2)), Some(Cplx::from_int(0)));
}

#[test]
fn test_deriv_at() {
    let p = get_test_polynomial();

    assert_eq!(p.deriv_at(Cplx::from_int(1)), Some(Cplx::from_int(5)));
    assert_eq!(p.deriv_at(Cplx::from_int(2)), Some(Cplx::from_int(7)));
    assert_eq!(p.deriv_at(Cplx::from_int(3)), Some(Cplx::from_int(9)));
}

#[test]
fn factorize_test_eval_at() {
    // x^2 + 3x + 2 evaluated at 1 is 6.
    let p = Polynomial {
        degree: 2,
        coefficients: vec![rat(2, 1), rat(3, 1), rat(1, 1)],
        unspecified: false,
    };

    assert_eq!(p.eval_at(Cplx::from_int(1)), Some(Cplx::from_int(6)));
}

#[test]
fn factorize_test_deriv_at() {
    // The derivative 2x + 3 evaluated at 1 is 5.
    let p = Polynomial {
        degree: 2,
        coefficients: vec![rat(2, 1), rat(3, 1), rat(1, 1)],
        unspecified: false,
    };

    assert_eq!(p.deriv_at(Cplx::from_int(1)), Some(Cplx::from_int(5)));
}

#[test]
fn evaluator_is_pure() {
    let p = get_test_polynomial();
    let z = Cplx::new(rat(7, 2), rat(-1, 3));
    assert_eq!(p.eval_at(z), p.eval_at(z));
    assert_eq!(p.deriv_at(z), p.deriv_at(z));
}

#[test]
fn derivative_ignores_constant_term() {
    let p = get_test_polynomial();
    let q = Polynomial {
        degree: 2,
        coefficients: vec![rat(-77, 5), rat(3, 1), rat(1, 1)],
        unspecified: false,
    };
    for v in [-3i64, 0, 1, 2, 9] {
        assert_eq!(p.deriv_at(Cplx::from_int(v)), q.deriv_at(Cplx::from_int(v)));
    }
}

#[test]
fn evaluation_at_complex_point() {
    // x^2 at i is -1.
    let p = Polynomial {
        degree: 2,
        coefficients: vec![rat(0, 1), rat(0, 1), rat(1, 1)],
        unspecified: false,
    };
    let i = Cplx::new(rat(0, 1), rat(1, 1));
    let r = p.eval_at(i).unwrap();
    assert_eq!(r, Cplx::new(rat(-1, 1), rat(0, 1)));
}

#[test]
fn evaluation_overflow_is_reported() {
    let p = Polynomial {
        degree: 2,
        coefficients: vec![rat(2, 1), rat(3, 1), rat(1, 1)],
        unspecified: false,
    };
    let huge = Cplx::from_int(1 << 40);
    assert_eq!(p.eval_at(huge), None);
}
