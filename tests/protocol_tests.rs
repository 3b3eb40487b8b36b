use shuffle_dp::field::{FieldElement, FiniteField};
use shuffle_dp::offline::OfflinePhase;
use shuffle_dp::online::{gather_submissions, OnlinePhase, PartyShares, RevealMessage};
use shuffle_dp::protocol::{ProtocolConfig, ProtocolError, ProtocolStats, UserData};
use shuffle_dp::server::{Server, ServerRole, ServerState};
use shuffle_dp::sharing::ShamirSecretSharing;

struct Run {
    revealed: Vec<Vec<u64>>,
}

fn setup(p: u64, n: usize, d: usize) -> (FiniteField, ShamirSecretSharing, OfflinePhase, OnlinePhase) {
    let field = FiniteField::new(p).unwrap();
    let shamir = ShamirSecretSharing::new(2, 3, p).unwrap();
    let offline = OfflinePhase::new(field, shamir, n, d).unwrap();
    let online = OnlinePhase::new(field, shamir).unwrap();
    (field, shamir, offline, online)
}

fn masked_inputs(field: &FiniteField, online: &mut OnlinePhase, inputs: &[Vec<u64>], seeds: &[u64]) -> Vec<Vec<FieldElement>> {
    inputs
        .iter()
        .enumerate()
        .map(|(i, x)| {
            let data: Vec<FieldElement> = x.iter().map(|v| field.element(*v)).collect();
            let user = UserData::new(i, data, seeds[i]);
            let mask = online.compute_user_mask(user.user_id, user.seed, user.len());
            online.compute_user_share(&user.data, &mask).unwrap()
        })
        .collect()
}

fn run(p: u64, inputs: &[Vec<u64>], sigma: &[usize], noise: &[Vec<i64>]) -> Run {
    let n = inputs.len();
    let d = inputs[0].len();
    let (field, _, offline, mut online) = setup(p, n, d);
    let seeds: Vec<u64> = (0..n as u64).map(|i| 1000 + 17 * i).collect();
    let (c1, c2) = offline.execute(sigma, &seeds, noise).unwrap();

    let mut comp1 = Server::new(1, ServerRole::Computational);
    let mut comp2 = Server::new(2, ServerRole::Computational);
    comp1.initialize();
    comp2.initialize();
    comp1.receive_shares(c1).unwrap();
    comp2.receive_shares(c2).unwrap();
    comp1.begin_run().unwrap();
    comp2.begin_run().unwrap();

    let masked = masked_inputs(&field, &mut online, inputs, &seeds);
    for comp in [&mut comp1, &mut comp2] {
        let shares: PartyShares = comp.get_shares().unwrap().clone();
        let y = online.compute_local(&shares, &masked).unwrap();
        comp.set_final_result(y).unwrap();
        assert_eq!(comp.state(), &ServerState::Completed);
    }
    let messages = vec![comp1.reveal_message().unwrap(), comp2.reveal_message().unwrap()];
    let out = online.combine_server_results(&messages).unwrap();
    Run { revealed: out.iter().map(|row| row.iter().map(|e| e.value()).collect()).collect() }
}

#[test]
fn fixed_permutation_in_small_field() {
    let inputs = vec![vec![2u64], vec![5], vec![3]];
    let noise = vec![vec![0i64]; 3];
    let r = run(7, &inputs, &[1, 2, 0], &noise);
    assert_eq!(r.revealed, vec![vec![5], vec![3], vec![2]]);
}

#[test]
fn output_is_a_permutation_of_the_input() {
    let inputs = vec![vec![1u64, 2], vec![3, 4], vec![5, 6], vec![7, 8]];
    let noise = vec![vec![0i64; 2]; 4];
    let (_, _, offline, _) = setup(97, 4, 2);
    let sigma = offline.generate_permutation();
    let r = run(97, &inputs, &sigma, &noise);
    for (i, row) in r.revealed.iter().enumerate() {
        assert_eq!(row, &inputs[sigma[i]]);
    }
    let mut sorted = r.revealed.clone();
    sorted.sort();
    assert_eq!(sorted, inputs);
}

#[test]
fn noise_is_added_after_the_shuffle() {
    let inputs = vec![vec![2u64], vec![5], vec![3]];
    let noise = vec![vec![1i64], vec![-1], vec![-10]];
    let r = run(7, &inputs, &[1, 2, 0], &noise);
    // [5 + 1, 3 - 1, 2 - 10] modulo 7
    assert_eq!(r.revealed, vec![vec![6], vec![2], vec![6]]);
}

// The recommended modulus 2^64 - 59 makes the trial-division primality check
// run for minutes; the Mersenne prime 2^31 - 1 keeps the test fast.
const LARGE_PRIME: u64 = 2_147_483_647;

#[test]
fn withheld_party_gives_insufficient_shares() {
    let p = LARGE_PRIME;
    let n = 100;
    let inputs: Vec<Vec<u64>> = (0..n as u64).map(|i| vec![i, 2 * i, 3 * i]).collect();
    let (field, _, offline, mut online) = setup(p, n, 3);
    let seeds: Vec<u64> = (0..n as u64).collect();
    let sigma = offline.generate_permutation();
    let (c1, _c2) = offline.execute(&sigma, &seeds, &vec![vec![0i64; 3]; n]).unwrap();
    let masked = masked_inputs(&field, &mut online, &inputs, &seeds);
    let y1 = online.compute_local(&c1, &masked).unwrap();
    let only_one = vec![RevealMessage { point: c1.point, values: y1 }];
    assert_eq!(online.combine_server_results(&only_one), Err(ProtocolError::InsufficientShares));
}

#[test]
fn missing_submission_aborts_the_run() {
    let field = FiniteField::new(97).unwrap();
    let received = vec![Some(vec![field.element(1)]), None, Some(vec![field.element(3)])];
    assert_eq!(gather_submissions(received), Err(ProtocolError::Timeout));
    let all = vec![Some(vec![field.element(1)]), Some(vec![field.element(2)])];
    assert_eq!(gather_submissions(all).unwrap().len(), 2);
}

#[test]
fn offline_phase_rejects_bad_input() {
    let (_, _, offline, _) = setup(7, 3, 1);
    let noise = vec![vec![0i64]; 3];
    assert!(matches!(offline.execute(&[0, 0, 1], &[1, 2, 3], &noise), Err(ProtocolError::InvalidConfiguration { .. })));
    assert!(matches!(offline.execute(&[0, 1, 3], &[1, 2, 3], &noise), Err(ProtocolError::InvalidConfiguration { .. })));
    assert_eq!(offline.execute(&[0, 1, 2], &[1, 2], &noise).unwrap_err(), ProtocolError::DimensionMismatch);
    assert_eq!(offline.execute(&[0, 1, 2], &[1, 2, 3], &noise[0..2]).unwrap_err(), ProtocolError::DimensionMismatch);
    let field = FiniteField::new(7).unwrap();
    let shamir = ShamirSecretSharing::new(2, 3, 7).unwrap();
    assert!(OfflinePhase::new(field, shamir, 1, 1).is_err());
    assert!(OfflinePhase::new(field, shamir, 3, 0).is_err());
}

#[test]
fn permutation_matrix_is_one_hot() {
    let (_, _, offline, _) = setup(7, 3, 1);
    let m = offline.permutation_matrix(&[2, 0, 1]).unwrap();
    let values: Vec<Vec<u64>> = m.iter().map(|r| r.iter().map(|e| e.value()).collect()).collect();
    assert_eq!(values, vec![vec![0, 0, 1], vec![1, 0, 0], vec![0, 1, 0]]);
}

#[test]
fn generated_permutation_is_a_permutation() {
    let (_, _, offline, _) = setup(97, 10, 2);
    let mut sigma = offline.generate_permutation();
    assert_eq!(sigma.len(), 10);
    assert!(offline.permutation_matrix(&sigma).is_ok());
    sigma.sort();
    assert_eq!(sigma, (0..10).collect::<Vec<_>>());
}

#[test]
fn permutations_are_drawn_at_random() {
    let (_, _, offline, _) = setup(97, 10, 1);
    let identity: Vec<usize> = (0..10).collect();
    assert!((0..5).any(|_| offline.generate_permutation() != identity));
}

#[test]
fn noise_embedding_is_twos_complement() {
    let (_, _, offline, _) = setup(7, 2, 2);
    let m = offline.embed_noise(&[vec![-1, 8], vec![-14, i64::MIN]]).unwrap();
    // i64::MIN = -2^63, and 2^63 = 1 (mod 7), so it embeds as 6.
    let values: Vec<Vec<u64>> = m.iter().map(|r| r.iter().map(|e| e.value()).collect()).collect();
    assert_eq!(values, vec![vec![6, 1], vec![0, 6]]);
}

#[test]
fn test_user_mask_computation() {
    let (_, _, offline, online) = setup(LARGE_PRIME, 2, 2);
    let mask = online.compute_user_mask(1, 12345, 2);
    assert_eq!(mask.len(), 2);
    // The stream starts at 12345 ^ 1 and steps by s * 1103515245 + 12345 modulo 2^64.
    let first = 12344u64.wrapping_mul(1103515245).wrapping_add(12345);
    let second = first.wrapping_mul(1103515245).wrapping_add(12345);
    assert_eq!(mask[0].value(), first % LARGE_PRIME);
    assert_eq!(mask[1].value(), second % LARGE_PRIME);
    let offline_masks = offline.user_masks(&[7, 12345]).unwrap();
    assert_eq!(offline_masks[1], mask);
}

#[test]
fn test_user_share_computation() {
    let p = LARGE_PRIME;
    let (_, _, _, mut online) = setup(p, 2, 2);
    let user_data = vec![FieldElement::new(10, p), FieldElement::new(20, p)];
    let mask = vec![FieldElement::new(3, p), FieldElement::new(27, p)];
    let share = online.compute_user_share(&user_data, &mask).unwrap();
    assert_eq!(share.len(), 2);
    assert_eq!(share[0].value(), 7);
    assert_eq!(share[1].value(), p - 7);
    assert_eq!(online.field_operations(), 2);
    assert_eq!(online.compute_user_share(&user_data, &mask[0..1]), Err(ProtocolError::DimensionMismatch));
}

#[test]
fn local_computation_checks_shapes() {
    let (field, _, offline, mut online) = setup(7, 2, 1);
    let (c1, _) = offline.execute(&[1, 0], &[1, 2], &[vec![0], vec![0]]).unwrap();
    let wrong = vec![vec![field.element(1), field.element(2)], vec![field.element(3), field.element(4)]];
    assert_eq!(online.compute_local(&c1, &wrong), Err(ProtocolError::DimensionMismatch));
    assert_eq!(online.compute_local(&c1, &[]), Err(ProtocolError::EmptyInput));
}

#[test]
fn protocol_defaults() {
    let config = ProtocolConfig::default();
    assert_eq!(config.num_servers, 3);
    assert_eq!(config.threshold, 2);
    assert_eq!(config.field_modulus, 0xFFFF_FFFF_FFFF_FFC5);
    let stats = ProtocolStats::default();
    assert_eq!(stats.field_operations, 0);
    let e = ProtocolError::invalid_configuration("bad".to_string());
    assert_eq!(e, ProtocolError::InvalidConfiguration { message: "bad".to_string() });
    assert_eq!(ProtocolError::from(shuffle_dp::field::FieldError::InsufficientShares), ProtocolError::InsufficientShares);
    assert_eq!(ProtocolError::from(shuffle_dp::field::FieldError::NoInverse), ProtocolError::FieldOperationFailed);
}

#[test]
fn user_data_accessors() {
    let field = FiniteField::new(7).unwrap();
    let u = UserData::new(3, vec![field.element(1), field.element(2)], 9);
    assert_eq!(u.len(), 2);
    assert!(!u.is_empty());
    assert!(UserData::new(0, Vec::new(), 0).is_empty());
}

fn verified_run(p: u64, inputs: &[Vec<u64>], sigma: &[usize], missing: Option<usize>) -> Result<Vec<Vec<u64>>, ProtocolError> {
    let n = inputs.len();
    let d = inputs[0].len();
    let (field, _, offline, mut online) = setup(p, n, d);
    let seeds: Vec<u64> = (0..n as u64).map(|i| 77 * i + 5).collect();
    let masked = masked_inputs(&field, &mut online, inputs, &seeds);
    let received: Vec<Option<Vec<FieldElement>>> =
        masked.into_iter().enumerate().map(|(i, m)| if Some(i) == missing { None } else { Some(m) }).collect();
    let mut comp1 = Server::new(1, ServerRole::Computational);
    let mut comp2 = Server::new(2, ServerRole::Computational);
    comp1.initialize();
    comp2.initialize();
    let noise = vec![vec![0i64; d]; n];
    let out = shuffle_dp::run::run_protocol(&offline, &mut online, &mut comp1, &mut comp2, sigma, &seeds, &noise, received);
    if out.is_err() {
        assert_eq!(comp1.state(), &ServerState::Online);
        assert!(comp1.get_shares().is_none());
    }
    out.map(|rows| rows.iter().map(|r| r.iter().map(|e| e.value()).collect()).collect())
}

#[test]
fn verified_run_permutes_the_records() {
    let inputs = vec![vec![2u64], vec![5], vec![3]];
    assert_eq!(verified_run(7, &inputs, &[1, 2, 0], None).unwrap(), vec![vec![5], vec![3], vec![2]]);
    let inputs = vec![vec![1u64, 2], vec![3, 4], vec![5, 6], vec![7, 8]];
    let mut out = verified_run(97, &inputs, &[3, 1, 0, 2], None).unwrap();
    out.sort();
    assert_eq!(out, inputs);
}

#[test]
fn verified_run_aborts_on_missing_submission() {
    let inputs = vec![vec![2u64], vec![5], vec![3]];
    assert_eq!(verified_run(97, &inputs, &[1, 2, 0], Some(1)), Err(ProtocolError::Timeout));
}
