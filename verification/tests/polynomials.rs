use finite_field::{Element, FieldError, FiniteField, Polynomial};

fn prime(p: u32, v: i32) -> FiniteField {
    FiniteField { char: p, element: Element::PrimeField { element: v } }
}

fn poly(p: u32, cs: &[i32]) -> Polynomial {
    let mut coef: Vec<FiniteField> = Vec::new();
    for &c in cs {
        coef.push(prime(p, c));
    }
    Polynomial { coef }
}

fn coef_vals(f: &Polynomial) -> Vec<i32> {
    let mut out: Vec<i32> = Vec::new();
    for c in &f.coef {
        match &c.element {
            Element::PrimeField { element } => out.push(*element),
            Element::GaloisField { .. } => panic!("expected prime-field coefficients"),
        }
    }
    out
}

#[test]
fn polynomial_addition_over_gf2() {
    let f = poly(2, &[1, 0, 0, 0, 1]);
    let g = poly(2, &[1, 0, 0, 1, 1]);
    assert_eq!(coef_vals(&f.add(&g).unwrap()), vec![0, 0, 0, 1]);
    assert_eq!(coef_vals(&f.sub(&g).unwrap()), vec![0, 0, 0, 1]);
}

#[test]
fn polynomial_addition_over_gf5() {
    let f = poly(5, &[1, 2, 3]);
    let g = poly(5, &[4, 4]);
    assert_eq!(coef_vals(&f.add(&g).unwrap()), vec![0, 1, 3]);
    assert_eq!(coef_vals(&f.sub(&g).unwrap()), vec![2, 3, 3]);
    // the sum of a polynomial and its negation collapses to the zero polynomial
    let h = poly(5, &[4, 3, 2]);
    assert_eq!(coef_vals(&f.add(&h).unwrap()), vec![0]);
}

#[test]
fn polynomial_multiplication() {
    // (1 + x) * (1 + x) == 1 + 2x + x^2
    let f = poly(5, &[1, 1]);
    assert_eq!(coef_vals(&f.mul(&f).unwrap()), vec![1, 2, 1]);
    // over GF(2) the cross terms cancel: (1 + x)^2 == 1 + x^2
    let g = poly(2, &[1, 1]);
    assert_eq!(coef_vals(&g.mul(&g).unwrap()), vec![1, 0, 1]);
}

#[test]
fn polynomial_division_and_remainder() {
    // x^4 + 1 == 1 * (x^4 + x^3 + 1) + x^3 over GF(2)
    let f = poly(2, &[1, 0, 0, 0, 1]);
    let g = poly(2, &[1, 0, 0, 1, 1]);
    assert_eq!(coef_vals(&f.div(&g).unwrap()), vec![1]);
    assert_eq!(coef_vals(&f.rem(&g).unwrap()), vec![0, 0, 0, 1]);
}

#[test]
fn polynomial_division_round_trip() {
    // f == (f / g) * g + (f % g)
    let f = poly(5, &[3, 1, 4, 1, 2]);
    let g = poly(5, &[2, 0, 1]);
    let q = f.div(&g).unwrap();
    let r = f.rem(&g).unwrap();
    let back = q.mul(&g).unwrap().add(&r).unwrap();
    assert_eq!(coef_vals(&back), vec![3, 1, 4, 1, 2]);
    assert!(r.coef.len() < g.coef.len());
}

#[test]
fn polynomial_division_low_degree_dividend() {
    // a dividend of lower degree: quotient [0], remainder the dividend
    let f = poly(5, &[1, 2]);
    let g = poly(5, &[0, 0, 1]);
    assert_eq!(coef_vals(&f.div(&g).unwrap()), vec![0]);
    assert_eq!(coef_vals(&f.rem(&g).unwrap()), vec![1, 2]);
}

#[test]
fn polynomial_division_by_zero() {
    let f = poly(5, &[1, 2]);
    let z = poly(5, &[0, 0]);
    assert_eq!(f.div(&z).unwrap_err(), FieldError::DivisionByZero);
    assert_eq!(f.rem(&z).unwrap_err(), FieldError::DivisionByZero);
}

#[test]
fn polynomial_mismatch_is_reported() {
    let f = poly(5, &[1, 2]);
    let g = poly(3, &[1, 2]);
    assert_eq!(f.add(&g).unwrap_err(), FieldError::DomainMismatch);
    assert_eq!(f.gcd(&g).unwrap_err(), FieldError::DomainMismatch);
}

#[test]
fn normalization_drops_trailing_zeros() {
    assert_eq!(coef_vals(&poly(5, &[1, 0]).adjust_func()), vec![1]);
    assert_eq!(coef_vals(&poly(5, &[1, 0, 2, 0, 0]).adjust_func()), vec![1, 0, 2]);
    // the zero polynomial normalizes to [0]
    assert_eq!(coef_vals(&poly(5, &[0, 0, 0]).adjust_func()), vec![0]);
    assert_eq!(coef_vals(&poly(5, &[0]).adjust_func()), vec![0]);
}

#[test]
fn normalization_is_idempotent() {
    let f = poly(5, &[3, 0, 2, 0]);
    let once = f.adjust_func();
    let twice = once.adjust_func();
    assert_eq!(coef_vals(&once), coef_vals(&twice));
}

#[test]
fn gcd_divides_both_operands() {
    // f == (1 + x)^2, g == 1 + x over GF(2): gcd is 1 + x
    let f = poly(2, &[1, 0, 1]);
    let g = poly(2, &[1, 1]);
    let h = f.gcd(&g).unwrap();
    assert_eq!(coef_vals(&h), vec![1, 1]);
    assert_eq!(coef_vals(&f.rem(&h).unwrap()), vec![0]);
    assert_eq!(coef_vals(&g.rem(&h).unwrap()), vec![0]);
}

#[test]
fn gcd_of_a_polynomial_with_itself() {
    let f = poly(2, &[1, 1, 0, 1]);
    assert_eq!(coef_vals(&f.gcd(&f).unwrap()), vec![1, 1, 0, 1]);
}

#[test]
fn gcd_of_coprime_polynomials_is_the_unit() {
    // x and 1 + x share no factor
    let f = poly(2, &[0, 1]);
    let g = poly(2, &[1, 1]);
    assert_eq!(coef_vals(&f.gcd(&g).unwrap()), vec![1]);
    // a nonzero constant result is reported as the unit polynomial
    let c = poly(5, &[3]);
    let d = poly(5, &[2, 1]);
    assert_eq!(coef_vals(&d.gcd(&c).unwrap()), vec![1]);
}

#[test]
fn evaluation_of_x_at_one() {
    // the polynomial x evaluated at 1 gives 1
    let f = poly(2, &[0, 1]);
    let one = prime(2, 1);
    let r = f.assign_value(&one).unwrap();
    match &r.element {
        Element::PrimeField { element } => assert_eq!(*element, 1),
        Element::GaloisField { .. } => panic!("expected a prime-field value"),
    }
}

#[test]
fn evaluation_accumulates_powers() {
    // 0 + 1*x + 2*x^2 at x == 2 over GF(5): 2 + 8 == 10 == 0
    let f = poly(5, &[0, 1, 2]);
    let x = prime(5, 2);
    let r = f.assign_value(&x).unwrap();
    match &r.element {
        Element::PrimeField { element } => assert_eq!(*element, 0),
        Element::GaloisField { .. } => panic!("expected a prime-field value"),
    }
}

#[test]
fn evaluation_of_empty_polynomial() {
    let f = Polynomial { coef: Vec::new() };
    let one = prime(5, 1);
    assert_eq!(f.assign_value(&one).unwrap_err(), FieldError::EmptyPolynomial);
}

#[test]
fn evaluation_with_mismatched_field() {
    let f = poly(5, &[1, 2]);
    let x = prime(3, 1);
    assert_eq!(f.assign_value(&x).unwrap_err(), FieldError::DomainMismatch);
}

#[test]
fn primitive_polynomial_gf16() {
    // the first irreducible monic polynomial of degree 4 over GF(2)
    let pp = Polynomial::get_primitive_polynomial(2, 4).unwrap();
    assert_eq!(coef_vals(&pp), vec![1, 1, 0, 0, 1]);
}

#[test]
fn primitive_polynomial_gf8() {
    let pp = Polynomial::get_primitive_polynomial(2, 3).unwrap();
    assert_eq!(coef_vals(&pp), vec![1, 1, 0, 1]);
}

#[test]
fn primitive_polynomial_gf4_and_gf9() {
    // x^2 + x + 1 is the only irreducible monic quadratic over GF(2)
    let pp = Polynomial::get_primitive_polynomial(2, 2).unwrap();
    assert_eq!(coef_vals(&pp), vec![1, 1, 1]);
    // over GF(3), x^2 + 1 has no root, and smaller candidates are reducible
    let pp3 = Polynomial::get_primitive_polynomial(3, 2).unwrap();
    assert_eq!(pp3.coef.len(), 3);
    let vals = coef_vals(&pp3);
    assert_eq!(vals[2], 1);
}

#[test]
fn primitive_polynomial_defines_a_working_field() {
    // multiply two elements of GF(2^4) built from the found modulus
    let pp = Polynomial::get_primitive_polynomial(2, 4).unwrap();
    let x = FiniteField {
        char: 2,
        element: Element::GaloisField { element: vec![0, 1], primitive_polynomial: pp },
    };
    let sq = x.mul(&x).unwrap();
    match &sq.element {
        Element::GaloisField { element, .. } => assert_eq!(element.clone(), vec![0, 0, 1]),
        Element::PrimeField { .. } => panic!("expected an extension-field value"),
    }
}

#[test]
fn primitive_polynomial_gf25() {
    // x^2 and x^2 + 1 are reducible over GF(5); x^2 + 2 is the first
    // irreducible candidate
    let pp = Polynomial::get_primitive_polynomial(5, 2).unwrap();
    assert_eq!(coef_vals(&pp), vec![2, 0, 1]);
}
