use shuffle_dp::field::{FieldElement, FieldError};
use shuffle_dp::sharing::{SecretShare, ShamirSecretSharing, ShareDistributor};

#[test]
fn test_secret_sharing() {
    let shamir = ShamirSecretSharing::new(2, 3, 7).unwrap();
    let secret = FieldElement::new(5, 7);

    let shares = shamir.share_secret(secret).unwrap();
    assert_eq!(shares.len(), 3);

    let reconstructed = shamir.reconstruct_secret(&shares[0..2]).unwrap();
    assert_eq!(reconstructed.value(), 5);
}

#[test]
fn secret_sharing_test_shamir_secret_sharing() {
    let shamir = ShamirSecretSharing::new(2, 3, 7).unwrap();
    let secret = FieldElement::new(5, 7);

    let shares = shamir.share_secret(secret).unwrap();
    assert_eq!(shares.len(), 3);

    let reconstructed = shamir.reconstruct_secret(&shares[0..2]).unwrap();
    assert_eq!(reconstructed.value(), secret.value());
}

#[test]
fn test_vector_sharing() {
    let shamir = ShamirSecretSharing::new(2, 3, 7).unwrap();
    let secrets = vec![FieldElement::new(1, 7), FieldElement::new(2, 7), FieldElement::new(3, 7)];

    let shares = shamir.share_vector(&secrets).unwrap();
    assert_eq!(shares.len(), 3);

    let reconstructed = shamir.reconstruct_vector(&shares).unwrap();
    assert_eq!(reconstructed.len(), 3);
    for (original, reconstructed) in secrets.iter().zip(reconstructed.iter()) {
        assert_eq!(original.value(), reconstructed.value());
    }
}

#[test]
fn test_share_operations() {
    let shamir = ShamirSecretSharing::new(2, 3, 7).unwrap();
    let a = FieldElement::new(3, 7);
    let b = FieldElement::new(4, 7);

    let shares_a = shamir.share_secret(a).unwrap();
    let shares_b = shamir.share_secret(b).unwrap();

    let sum_shares = shamir.add_shares(&shares_a, &shares_b).unwrap();
    let sum = shamir.reconstruct_secret(&sum_shares).unwrap();

    let expected = a.add(&b).unwrap();
    assert_eq!(sum.value(), expected.value());
}

#[test]
fn test_share_distributor() {
    let shamir = ShamirSecretSharing::new(2, 3, 7).unwrap();
    let distributor = ShareDistributor::new(shamir, 3);

    let secret = FieldElement::new(5, 7);
    let shares = distributor.shamir.share_secret(secret).unwrap();

    let distribution = distributor.distribute_shares(shares);
    assert_eq!(distribution.len(), 3);

    let collected = distributor.collect_shares(&distribution);
    assert_eq!(collected.len(), 3);
}

#[test]
fn every_pair_of_shares_reconstructs() {
    let shamir = ShamirSecretSharing::new(2, 3, 97).unwrap();
    for s in [0u64, 1, 42, 96] {
        let shares = shamir.share_secret(FieldElement::new(s, 97)).unwrap();
        for a in 0..3 {
            for b in 0..3 {
                if a != b {
                    let pair = [shares[a], shares[b]];
                    assert_eq!(shamir.reconstruct_secret(&pair).unwrap().value(), s);
                }
            }
        }
    }
}

#[test]
fn shares_lie_on_a_line() {
    let shamir = ShamirSecretSharing::new(2, 3, 97).unwrap();
    let shares = shamir.share_secret(FieldElement::new(10, 97)).unwrap();
    for (i, sh) in shares.iter().enumerate() {
        assert_eq!(sh.id(), i);
        assert_eq!(sh.point().value(), i as u64 + 1);
    }
    // f(1), f(2), f(3) of f(x) = 10 + c x: consecutive differences agree.
    let d1 = shares[1].value().sub(&shares[0].value()).unwrap();
    let d2 = shares[2].value().sub(&shares[1].value()).unwrap();
    assert_eq!(d1, d2);
    let f0 = shares[0].value().sub(&d1).unwrap();
    assert_eq!(f0.value(), 10);
}

#[test]
fn exact_polynomial_shares() {
    let shamir = ShamirSecretSharing::new(3, 4, 97).unwrap();
    // f(x) = 5 + 2x + 3x^2
    let coeffs = vec![FieldElement::new(5, 97), FieldElement::new(2, 97), FieldElement::new(3, 97)];
    let shares = shamir.share_with_polynomial(&coeffs).unwrap();
    let values: Vec<u64> = shares.iter().map(|s| s.value().value()).collect();
    assert_eq!(values, vec![10, 21, 38, 61]);
    let secret = shamir.reconstruct_secret(&shares[1..4]).unwrap();
    assert_eq!(secret.value(), 5);
    assert_eq!(shamir.share_with_polynomial(&[]), Err(FieldError::EmptyInput));
}

#[test]
fn multiply_by_constant_scales_secret() {
    let shamir = ShamirSecretSharing::new(2, 3, 97).unwrap();
    let shares = shamir.share_secret(FieldElement::new(20, 97)).unwrap();
    let scaled = shamir.multiply_by_constant(&shares, FieldElement::new(5, 97)).unwrap();
    assert_eq!(shamir.reconstruct_secret(&scaled[1..3]).unwrap().value(), 3); // 100 = 3 (mod 97)
    let sum = shamir.add_shares(&shares, &scaled).unwrap();
    assert_eq!(shamir.reconstruct_secret(&sum).unwrap().value(), 23);
}

#[test]
fn reconstruction_errors() {
    let shamir = ShamirSecretSharing::new(2, 3, 7).unwrap();
    let shares = shamir.share_secret(FieldElement::new(4, 7)).unwrap();
    assert_eq!(shamir.reconstruct_secret(&shares[0..1]), Err(FieldError::InsufficientShares));
    let twice = [shares[0], shares[0]];
    assert_eq!(shamir.reconstruct_secret(&twice), Err(FieldError::DivisionByZero));
    let foreign = [SecretShare::new(0, FieldElement::new(1, 11), FieldElement::new(1, 11)), shares[1]];
    assert_eq!(shamir.reconstruct_secret(&foreign), Err(FieldError::ModulusMismatch));
    assert_eq!(shamir.share_secret(FieldElement::new(4, 11)), Err(FieldError::ModulusMismatch));
}

#[test]
fn add_shares_requires_matching_ids() {
    let shamir = ShamirSecretSharing::new(2, 3, 7).unwrap();
    let a = shamir.share_secret(FieldElement::new(1, 7)).unwrap();
    let b = shamir.share_secret(FieldElement::new(2, 7)).unwrap();
    let swapped = vec![b[1], b[0], b[2]];
    assert_eq!(shamir.add_shares(&a, &swapped), Err(FieldError::DimensionMismatch));
    assert_eq!(shamir.add_shares(&a, &b[0..2]), Err(FieldError::DimensionMismatch));
}

#[test]
fn scheme_configuration_errors() {
    assert_eq!(ShamirSecretSharing::new(3, 2, 7).unwrap_err(), FieldError::DimensionMismatch);
    assert_eq!(ShamirSecretSharing::new(1, 3, 7).unwrap_err(), FieldError::DimensionMismatch);
    assert_eq!(ShamirSecretSharing::new(2, 3, 8).unwrap_err(), FieldError::NonPrimeModulus);
    assert_eq!(ShamirSecretSharing::new(2, 3, 3).unwrap_err(), FieldError::DimensionMismatch);
    let s = ShamirSecretSharing::new(2, 3, 7).unwrap();
    assert_eq!(s.threshold(), 2);
    assert_eq!(s.num_shares(), 3);
    assert_eq!(s.field().modulus(), 7);
}

#[test]
fn matrix_sharing_round_trip() {
    let shamir = ShamirSecretSharing::new(2, 3, 13).unwrap();
    let m = vec![
        vec![FieldElement::new(1, 13), FieldElement::new(12, 13)],
        vec![FieldElement::new(0, 13), FieldElement::new(7, 13)],
    ];
    let shares = shamir.share_matrix(&m).unwrap();
    let back = shamir.reconstruct_matrix(&shares).unwrap();
    assert_eq!(back, m);
}

#[test]
fn distributor_routes_by_id() {
    let shamir = ShamirSecretSharing::new(2, 3, 7).unwrap();
    let distributor = ShareDistributor::new(shamir, 2);
    let shares = shamir.share_secret(FieldElement::new(3, 7)).unwrap();
    let distribution = distributor.distribute_shares(shares.clone());
    assert_eq!(distribution.len(), 2);
    assert_eq!(distribution[&0].iter().map(|s| s.id()).collect::<Vec<_>>(), vec![0, 2]);
    assert_eq!(distribution[&1].iter().map(|s| s.id()).collect::<Vec<_>>(), vec![1]);
    let collected = distributor.collect_shares(&distribution);
    assert_eq!(collected.iter().map(|s| s.id()).collect::<Vec<_>>(), vec![0, 2, 1]);
    let groups = distributor.distribute_vector_shares(vec![shares.clone(), shares.clone(), shares]);
    assert_eq!(groups[&0].len(), 2);
    assert_eq!(groups[&1].len(), 1);
}
