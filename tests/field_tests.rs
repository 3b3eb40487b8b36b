use shuffle_dp::field::{FieldElement, FieldError, FiniteField};

#[test]
fn test_field_element_creation() {
    let elem = FieldElement::new(5, 7);
    assert_eq!(elem.value(), 5);
    assert_eq!(elem.modulus(), 7);
}

#[test]
fn test_field_operations() {
    let a = FieldElement::new(5, 7);
    let b = FieldElement::new(3, 7);

    let sum = a.add(&b).unwrap();
    assert_eq!(sum.value(), 1);

    let diff = a.sub(&b).unwrap();
    assert_eq!(diff.value(), 2);

    let product = a.mul(&b).unwrap();
    assert_eq!(product.value(), 1);

    let quotient = a.div(&b).unwrap();
    assert_eq!(quotient.value(), 4);
}

#[test]
fn test_finite_field() {
    let field = FiniteField::new(7).unwrap();
    assert_eq!(field.modulus(), 7);
    assert_eq!(field.generator(), 5);
}

#[test]
fn test_vector_operations() {
    let field = FiniteField::new(7).unwrap();
    let a = vec![field.element(1), field.element(2), field.element(3)];
    let b = vec![field.element(4), field.element(5), field.element(6)];

    let sum = field.vector_add(&a, &b).unwrap();
    assert_eq!(sum[0].value(), 5);
    assert_eq!(sum[1].value(), 0);
    assert_eq!(sum[2].value(), 2);
}

#[test]
fn test_matrix_vector_multiplication() {
    let field = FiniteField::new(7).unwrap();
    let matrix = vec![
        vec![field.element(1), field.element(2)],
        vec![field.element(3), field.element(4)],
    ];
    let vector = vec![field.element(5), field.element(6)];

    let result = field.matrix_vector_mul(&matrix, &vector).unwrap();
    assert_eq!(result.len(), 2);
}

#[test]
fn test_finite_field_operations() {
    let field = FiniteField::new(7).unwrap();
    let a = field.element(5);
    let b = field.element(3);

    let sum = a.add(&b).unwrap();
    assert_eq!(sum.value(), 1);

    let product = a.mul(&b).unwrap();
    assert_eq!(product.value(), 1);
}

#[test]
fn matrix_vector_values() {
    let field = FiniteField::new(7).unwrap();
    let matrix = vec![
        vec![field.element(1), field.element(2)],
        vec![field.element(3), field.element(4)],
    ];
    let vector = vec![field.element(5), field.element(6)];
    let result = field.matrix_vector_mul(&matrix, &vector).unwrap();
    // 1*5 + 2*6 = 17 = 3 (mod 7); 3*5 + 4*6 = 39 = 4 (mod 7)
    assert_eq!(result[0].value(), 3);
    assert_eq!(result[1].value(), 4);
}

#[test]
fn matrix_vector_errors() {
    let field = FiniteField::new(7).unwrap();
    let empty: Vec<Vec<FieldElement>> = Vec::new();
    let vector = vec![field.element(5), field.element(6)];
    assert_eq!(field.matrix_vector_mul(&empty, &vector), Err(FieldError::EmptyInput));
    let ragged = vec![vec![field.element(1), field.element(2)], vec![field.element(3)]];
    assert_eq!(field.matrix_vector_mul(&ragged, &vector), Err(FieldError::DimensionMismatch));
    let other = vec![vec![FieldElement::new(1, 11), FieldElement::new(2, 11)]];
    assert_eq!(field.matrix_vector_mul(&other, &vector), Err(FieldError::ModulusMismatch));
}

#[test]
fn vector_sub_and_mul() {
    let field = FiniteField::new(7).unwrap();
    let a = vec![field.element(1), field.element(6)];
    let b = vec![field.element(4), field.element(5)];
    let diff = field.vector_sub(&a, &b).unwrap();
    assert_eq!(diff[0].value(), 4);
    assert_eq!(diff[1].value(), 1);
    let prod = field.vector_mul(&a, &b).unwrap();
    assert_eq!(prod[0].value(), 4);
    assert_eq!(prod[1].value(), 2);
    let short = vec![field.element(1)];
    assert_eq!(field.vector_add(&a, &short), Err(FieldError::DimensionMismatch));
}

#[test]
fn modulus_mismatch_fails() {
    let a = FieldElement::new(3, 7);
    let b = FieldElement::new(3, 11);
    assert_eq!(a.add(&b), Err(FieldError::ModulusMismatch));
    assert_eq!(a.sub(&b), Err(FieldError::ModulusMismatch));
    assert_eq!(a.mul(&b), Err(FieldError::ModulusMismatch));
    assert_eq!(a.div(&b), Err(FieldError::ModulusMismatch));
}

#[test]
fn inverse_and_division_by_zero() {
    let zero = FieldElement::zero(7);
    assert_eq!(zero.inverse(), Err(FieldError::DivisionByZero));
    assert_eq!(FieldElement::new(3, 7).div(&zero), Err(FieldError::DivisionByZero));
    for v in 1..7u64 {
        let a = FieldElement::new(v, 7);
        let inv = a.inverse().unwrap();
        assert_eq!(a.mul(&inv).unwrap().value(), 1);
    }
    // 2 has no inverse modulo 8.
    assert_eq!(FieldElement::new(2, 8).inverse(), Err(FieldError::NoInverse));
}

#[test]
fn inverse_with_large_modulus() {
    let p = 0xFFFF_FFFF_FFFF_FFC5u64;
    let a = FieldElement::new(123_456_789_123, p);
    let inv = a.inverse().unwrap();
    assert_eq!(a.mul(&inv).unwrap().value(), 1);
}

#[test]
fn pow_and_neg() {
    let a = FieldElement::new(3, 7);
    assert_eq!(a.pow(0).unwrap().value(), 1);
    assert_eq!(a.pow(4).unwrap().value(), 4); // 81 = 4 (mod 7)
    assert_eq!(a.pow(6).unwrap().value(), 1);
    assert_eq!(a.neg().value(), 4);
    assert_eq!(FieldElement::zero(7).neg().value(), 0);
    assert_eq!(a.add(&a.neg()).unwrap().value(), 0);
}

#[test]
fn add_near_u64_max() {
    let p = 0xFFFF_FFFF_FFFF_FFC5u64;
    let a = FieldElement::new(p - 1, p);
    let b = FieldElement::new(p - 2, p);
    assert_eq!(a.add(&b).unwrap().value(), p - 3);
    assert_eq!(b.sub(&a).unwrap().value(), p - 1);
    assert_eq!(a.mul(&a).unwrap().value(), 1);
}

#[test]
fn ring_laws_on_values() {
    let p = 97u64;
    let (a, b, c) = (FieldElement::new(41, p), FieldElement::new(77, p), FieldElement::new(90, p));
    let lhs = a.add(&b).unwrap().add(&c).unwrap();
    let rhs = a.add(&b.add(&c).unwrap()).unwrap();
    assert_eq!(lhs, rhs);
    assert_eq!(a.mul(&b).unwrap(), b.mul(&a).unwrap());
    let dist = a.mul(&b.add(&c).unwrap()).unwrap();
    let sum = a.mul(&b).unwrap().add(&a.mul(&c).unwrap()).unwrap();
    assert_eq!(dist, sum);
    assert_eq!(a.add(&FieldElement::zero(p)).unwrap(), a);
    assert_eq!(a.mul(&FieldElement::one(p)).unwrap(), a);
}

#[test]
fn non_prime_modulus_rejected() {
    assert_eq!(FiniteField::new(8).unwrap_err(), FieldError::NonPrimeModulus);
    assert_eq!(FiniteField::new(1).unwrap_err(), FieldError::NonPrimeModulus);
    assert_eq!(FiniteField::new(91).unwrap_err(), FieldError::NonPrimeModulus);
    assert!(FiniteField::new(2).is_ok());
    assert!(FiniteField::new(97).is_ok());
    assert_eq!(FiniteField::new(3).unwrap().generator(), 2);
}

#[test]
fn random_elements_stay_in_range() {
    let field = FiniteField::new(5).unwrap();
    let v = field.random_vector(200);
    assert_eq!(v.len(), 200);
    assert!(v.iter().all(|e| e.value() < 5 && e.modulus() == 5));
    assert!(v.iter().any(|e| e.value() != v[0].value()));
    let m = field.random_matrix(3, 4);
    assert_eq!(m.len(), 3);
    assert!(m.iter().all(|r| r.len() == 4));
}
