use finite_field::{Element, FieldError, FiniteField, Polynomial};

fn prime(p: u32, v: i32) -> FiniteField {
    FiniteField { char: p, element: Element::PrimeField { element: v } }
}

fn prime_val(x: &FiniteField) -> i32 {
    match &x.element {
        Element::PrimeField { element } => *element,
        Element::GaloisField { .. } => panic!("expected a prime-field element"),
    }
}

fn poly(p: u32, cs: &[i32]) -> Polynomial {
    let mut coef: Vec<FiniteField> = Vec::new();
    for &c in cs {
        coef.push(prime(p, c));
    }
    Polynomial { coef }
}

fn ext(p: u32, cs: &[i32], modulus: &[i32]) -> FiniteField {
    FiniteField {
        char: p,
        element: Element::GaloisField {
            element: cs.to_vec(),
            primitive_polynomial: poly(p, modulus),
        },
    }
}

fn ext_val(x: &FiniteField) -> Vec<i32> {
    match &x.element {
        Element::PrimeField { .. } => panic!("expected an extension-field element"),
        Element::GaloisField { element, .. } => element.clone(),
    }
}

#[test]
fn prime_field_literals_char_5() {
    let x = prime(5, 0);
    let y = prime(5, 1);
    assert_eq!(prime_val(&x.add(&y).unwrap()), 1);
    assert_eq!(prime_val(&x.sub(&y).unwrap()), 4);
    assert_eq!(prime_val(&x.mul(&y).unwrap()), 0);
    assert_eq!(prime_val(&x.div(&y).unwrap()), 0);
}

#[test]
fn prime_field_general_ops() {
    let a = prime(7, 4);
    let b = prime(7, 5);
    assert_eq!(prime_val(&a.add(&b).unwrap()), 2);
    assert_eq!(prime_val(&a.sub(&b).unwrap()), 6);
    assert_eq!(prime_val(&a.mul(&b).unwrap()), 6);
    // 4 / 5 == 4 * 3 == 12 == 5 (mod 7), since 5 * 3 == 1 (mod 7)
    assert_eq!(prime_val(&a.div(&b).unwrap()), 5);
}

#[test]
fn division_by_zero_is_reported() {
    let one = prime(5, 1);
    let zero = prime(5, 0);
    assert_eq!(one.div(&zero).unwrap_err(), FieldError::DivisionByZero);
}

#[test]
fn mixed_characteristics_are_reported() {
    let a = prime(5, 1);
    let b = prime(3, 1);
    assert_eq!(a.add(&b).unwrap_err(), FieldError::DomainMismatch);
    assert_eq!(a.sub(&b).unwrap_err(), FieldError::DomainMismatch);
    assert_eq!(a.mul(&b).unwrap_err(), FieldError::DomainMismatch);
    assert_eq!(a.div(&b).unwrap_err(), FieldError::DomainMismatch);
}

#[test]
fn prime_and_extension_do_not_mix() {
    let a = prime(2, 1);
    let b = ext(2, &[0, 1], &[1, 1, 0, 0, 1]);
    assert_eq!(a.add(&b).unwrap_err(), FieldError::DomainMismatch);
}

#[test]
fn identities_and_predicates() {
    let a = prime(5, 3);
    assert!(a.get_0().is_0());
    assert!(a.get_1().is_1());
    assert!(!a.is_0());
    assert!(!a.is_1());
    assert!(prime(5, 0).is_0());
    assert!(prime(5, 1).is_1());
    let e = ext(2, &[0, 1], &[1, 1, 0, 0, 1]);
    assert!(e.get_0().is_0());
    assert!(e.get_1().is_1());
    assert_eq!(ext_val(&e.get_0()), vec![0]);
    assert_eq!(ext_val(&e.get_1()), vec![1]);
}

#[test]
fn negation_in_a_prime_field() {
    assert_eq!(prime_val(&prime(5, 1).neg()), 4);
    assert_eq!(prime_val(&prime(5, 0).neg()), 0);
    assert_eq!(prime_val(&prime(7, 3).neg()), 4);
}

#[test]
fn extension_field_addition_gf16() {
    // GF(2^4) with modulus x^4 + x + 1; x + (x^2 + x^3)
    let m = [1, 1, 0, 0, 1];
    let x = ext(2, &[0, 1], &m);
    let y = ext(2, &[0, 0, 1, 1], &m);
    assert_eq!(ext_val(&x.add(&y).unwrap()), vec![0, 1, 1, 1]);
    // over GF(2), subtraction is addition
    assert_eq!(ext_val(&x.sub(&y).unwrap()), vec![0, 1, 1, 1]);
}

#[test]
fn extension_field_multiplication_gf16() {
    // x * (x^2 + x^3) == x^3 + x^4 == x^3 + x + 1 (mod x^4 + x + 1)
    let m = [1, 1, 0, 0, 1];
    let x = ext(2, &[0, 1], &m);
    let y = ext(2, &[0, 0, 1, 1], &m);
    assert_eq!(ext_val(&x.mul(&y).unwrap()), vec![1, 1, 0, 1]);
}

#[test]
fn extension_field_division_round_trip_gf16() {
    // (x / y) * y == x for nonzero y
    let m = [1, 1, 0, 0, 1];
    let x = ext(2, &[0, 1], &m);
    let y = ext(2, &[0, 0, 1, 1], &m);
    let q = x.div(&y).unwrap();
    assert_eq!(ext_val(&q.mul(&y).unwrap()), vec![0, 1]);
}

#[test]
fn extension_field_division_by_zero() {
    let m = [1, 1, 0, 0, 1];
    let x = ext(2, &[0, 1], &m);
    let z = ext(2, &[0], &m);
    assert_eq!(x.div(&z).unwrap_err(), FieldError::DivisionByZero);
}

#[test]
fn extension_field_negation_is_identity_over_gf2() {
    let m = [1, 1, 0, 1];
    let a = ext(2, &[1, 0, 1], &m);
    assert_eq!(ext_val(&a.neg()), vec![1, 0, 1]);
}

#[test]
fn extension_field_ops_gf8() {
    // GF(2^3) with modulus x^3 + x + 1
    let m = [1, 1, 0, 1];
    let a = ext(2, &[0, 1], &m);
    let b = ext(2, &[1, 1], &m);
    // x * (1 + x) == x + x^2
    assert_eq!(ext_val(&a.mul(&b).unwrap()), vec![0, 1, 1]);
    // x^3 == x + 1 (mod x^3 + x + 1)
    let a2 = a.mul(&a).unwrap();
    let a3 = a2.mul(&a).unwrap();
    assert_eq!(ext_val(&a3), vec![1, 1]);
}

#[test]
fn extended_euclidean_computes_inverses() {
    assert_eq!(finite_field::extended_euclidean(5, 2), 3);
    assert_eq!(finite_field::extended_euclidean(5, 4), 4);
    assert_eq!(finite_field::extended_euclidean(7, 3), 5);
    assert_eq!(finite_field::extended_euclidean(2, 1), 1);
    assert_eq!(finite_field::extended_euclidean(11, 10), 10);
}

#[test]
fn change_base_digits() {
    assert_eq!(finite_field::change_base_from10_to_n(0, 2), Vec::<i32>::new());
    assert_eq!(finite_field::change_base_from10_to_n(1, 2), vec![1]);
    assert_eq!(finite_field::change_base_from10_to_n(2, 2), vec![0, 1]);
    assert_eq!(finite_field::change_base_from10_to_n(3, 2), vec![1, 1]);
    assert_eq!(finite_field::change_base_from10_to_n(11, 3), vec![2, 0, 1]);
}

#[test]
fn field_axioms_on_concrete_values() {
    let a = prime(7, 3);
    let b = prime(7, 5);
    let c = prime(7, 6);
    // commutativity and associativity of addition
    assert_eq!(prime_val(&a.add(&b).unwrap()), prime_val(&b.add(&a).unwrap()));
    let ab_c = a.add(&b).unwrap().add(&c).unwrap();
    let a_bc = a.add(&b.add(&c).unwrap()).unwrap();
    assert_eq!(prime_val(&ab_c), prime_val(&a_bc));
    // identities and inverses
    assert_eq!(prime_val(&a.add(&a.get_0()).unwrap()), 3);
    assert!(a.sub(&a).unwrap().is_0());
    assert_eq!(prime_val(&a.mul(&a.get_1()).unwrap()), 3);
    // division undoes multiplication
    let q = a.div(&b).unwrap();
    assert_eq!(prime_val(&q.mul(&b).unwrap()), 3);
    // the same axioms hold for extension-field elements
    let m = [1, 1, 0, 0, 1];
    let x = ext(2, &[0, 1], &m);
    let y = ext(2, &[1, 0, 1], &m);
    assert_eq!(ext_val(&x.add(&y).unwrap()), ext_val(&y.add(&x).unwrap()));
    assert_eq!(ext_val(&x.add(&x.get_0()).unwrap()), vec![0, 1]);
    assert!(x.sub(&x).unwrap().is_0());
    assert_eq!(ext_val(&x.mul(&x.get_1()).unwrap()), vec![0, 1]);
    let xq = x.div(&y).unwrap();
    assert_eq!(ext_val(&xq.mul(&y).unwrap()), vec![0, 1]);
}
