use polyfactor::command::{CommandType, Op, Term};
use polyfactor::polynomial::Polynomial;
use polyfactor::rational::Rat;
use polyfactor::render::render_factors;

fn rat(n: i64, d: i64) -> Rat {
    Rat { num: n, den: d }
}

#[test]
fn term_new_sets_fields() {
    let t = Term::new(3, 1);
    assert_eq!(t.coefficient, 3);
    assert_eq!(t.exponent, 1);
}

#[test]
fn polynomial_from_terms() {
    // x^2 + 3x + 2, written as its term list, highest exponent first.
    let terms = vec![Term::new(1, 2), Term::new(3, 1), Term::new(2, 0)];
    let p = Polynomial::new(terms);
    assert_eq!(p.degree, 2);
    assert_eq!(p.coefficients, vec![rat(2, 1), rat(3, 1), rat(1, 1)]);
    assert!(!p.unspecified);
}

#[test]
fn polynomial_from_sparse_terms() {
    // x^3 - 4: the missing exponents get zero coefficients.
    let terms = vec![Term::new(1, 3), Term::new(-4, 0)];
    let p = Polynomial::new(terms);
    assert_eq!(p.degree, 3);
    assert_eq!(
        p.coefficients,
        vec![rat(-4, 1), rat(0, 1), rat(0, 1), rat(1, 1)]
    );
}

#[test]
fn repeated_exponent_keeps_last_term() {
    let terms = vec![Term::new(1, 1), Term::new(9, 0), Term::new(7, 0)];
    let p = Polynomial::new(terms);
    assert_eq!(p.coefficients, vec![rat(7, 1), rat(1, 1)]);
}

#[test]
fn derivative_of_quadratic() {
    let p = Polynomial {
        degree: 2,
        coefficients: vec![rat(2, 1), rat(3, 1), rat(1, 1)],
        unspecified: false,
    };
    let d = p.derivative().unwrap();
    assert_eq!(d.degree, 1);
    assert_eq!(d.coefficients, vec![rat(3, 1), rat(2, 1)]);
    assert!(!d.unspecified);
}

#[test]
fn derivative_of_constant_is_zero() {
    let p = Polynomial {
        degree: 0,
        coefficients: vec![rat(9, 1)],
        unspecified: false,
    };
    let d = p.derivative().unwrap();
    assert_eq!(d.degree, 0);
    assert_eq!(d.coefficients, vec![rat(0, 1)]);
}

#[test]
fn integral_of_quadratic() {
    // The integral of x^2 + 3x + 2 is x^3/3 + 3x^2/2 + 2x (+ c).
    let p = Polynomial {
        degree: 2,
        coefficients: vec![rat(2, 1), rat(3, 1), rat(1, 1)],
        unspecified: false,
    };
    let q = p.integral().unwrap();
    assert_eq!(q.degree, 3);
    assert_eq!(
        q.coefficients,
        vec![rat(0, 1), rat(2, 1), rat(3, 2), rat(1, 3)]
    );
    assert!(q.unspecified);
}

#[test]
fn command_vocabulary_is_usable() {
    assert_ne!(CommandType::Factor, CommandType::Derivative);
    assert_ne!(Op::Plus, Op::Minus);
    assert_eq!(CommandType::Integrate, CommandType::Integrate);
}

#[test]
fn renderer_sign_law_on_concrete_roots() {
    // A positive root is subtracted; a zero or negative root is added
    // with its magnitude.
    assert_eq!(render_factors(&vec![rat(3, 2)]), "(x - 3/2)");
    assert_eq!(render_factors(&vec![rat(-5, 1)]), "(x + 5)");
    assert_eq!(render_factors(&vec![rat(0, 1)]), "(x + 0)");
    assert_eq!(
        render_factors(&vec![rat(12, 1), rat(-1, 3)]),
        "(x - 12)(x + 1/3)"
    );
}

#[test]
fn renderer_prints_multidigit_magnitudes() {
    assert_eq!(render_factors(&vec![rat(1234, 567)]), "(x - 1234/567)");
}
