use ipfrs::cid::Cid;
use ipfrs::gradient::{
    round_admission, ClientInfo, ClientState, DPMechanism, FederatedRound, GradientAggregator, GradientError,
    GradientVerifier, SecureAggregation, SparseGradient,
};

#[test]
fn test_dp_mechanism_types() {
    let gaussian = DPMechanism::Gaussian;
    let laplacian = DPMechanism::Laplacian;

    assert_eq!(gaussian, DPMechanism::Gaussian);
    assert_eq!(laplacian, DPMechanism::Laplacian);
    assert_ne!(gaussian, laplacian);
}

#[test]
fn test_client_state_enum() {
    let idle = ClientState::Idle;
    let training = ClientState::Training;
    let completed = ClientState::Completed;
    let failed = ClientState::Failed;

    assert_ne!(idle, training);
    assert_ne!(training, completed);
    assert_ne!(completed, failed);
    assert_eq!(idle, ClientState::Idle);
}

#[test]
fn test_client_info() {
    let mut client = ClientInfo::new("client1".to_string(), 1000);

    assert_eq!(client.client_id, "client1");
    assert_eq!(client.state, ClientState::Idle);
    assert_eq!(client.sample_count, 1000);

    client.start_training();
    assert_eq!(client.state, ClientState::Training);

    client.complete_training();
    assert_eq!(client.state, ClientState::Completed);

    client.mark_failed();
    assert_eq!(client.state, ClientState::Failed);
}

#[test]
fn test_client_info_timestamps() {
    let mut client = ClientInfo::new_at("c".to_string(), 3, 100);
    assert_eq!(client.last_update, 100);
    client.set_state_at(ClientState::Training, 250);
    assert_eq!(client.state, ClientState::Training);
    assert_eq!(client.last_update, 250);
    assert_eq!(client.sample_count, 3);
}

#[test]
fn test_secure_aggregation_participants() {
    let mut aggregator = SecureAggregation::new(3);

    assert_eq!(aggregator.participant_count(), 0);
    assert!(!aggregator.can_aggregate());
    assert!(aggregator.check_participants().is_err());

    aggregator.add_participant();
    aggregator.add_participant();
    assert!(!aggregator.can_aggregate());

    aggregator.add_participant();
    assert!(aggregator.can_aggregate());
    assert!(aggregator.check_participants().is_ok());

    aggregator.reset();
    assert_eq!(aggregator.participant_count(), 0);
}

#[test]
fn test_secure_aggregation_refuses_too_few() {
    let aggregator = SecureAggregation::new(5);
    match aggregator.check_participants() {
        Err(GradientError::InvalidGradient(_)) => {}
        other => panic!("unexpected {:?}", other),
    }
    let none_needed = SecureAggregation::new(0);
    assert!(none_needed.check_participants().is_ok());
}

#[test]
fn test_verify_shape() {
    let gradient = vec![0.5f32; 6];
    assert!(GradientVerifier::verify_shape(&gradient, &[2, 3]).is_ok());
    match GradientVerifier::verify_shape(&gradient, &[4, 2]) {
        Err(GradientError::ShapeMismatch { expected, actual }) => {
            assert_eq!(expected, vec![4, 2]);
            assert_eq!(actual, vec![6]);
        }
        other => panic!("unexpected {:?}", other),
    }
    let empty: Vec<f32> = Vec::new();
    assert!(GradientVerifier::verify_shape(&empty, &[0, 5]).is_ok());
    // the empty shape has one element
    assert!(GradientVerifier::verify_shape(&[1.0f32], &[]).is_ok());
}

#[test]
fn test_common_length() {
    let empty: Vec<Vec<f32>> = Vec::new();
    assert!(matches!(GradientAggregator::common_length(&empty), Err(GradientError::EmptyGradientSet)));
    let same = vec![vec![1.0f32, 2.0], vec![3.0, 4.0]];
    assert_eq!(GradientAggregator::common_length(&same).unwrap(), 2);
    let ragged = vec![vec![1.0f32, 2.0], vec![3.0, 4.0], vec![5.0], vec![]];
    match GradientAggregator::common_length(&ragged) {
        Err(GradientError::ShapeMismatch { expected, actual }) => {
            assert_eq!(expected, vec![2]);
            assert_eq!(actual, vec![1]);
        }
        other => panic!("unexpected {:?}", other),
    }
}

#[test]
fn test_sparse_gradient_layout() {
    let g = SparseGradient::new(vec![0, 5], vec![1.5f32, -2.0], vec![2, 3]);
    assert_eq!(g.nnz(), 2);
    assert_eq!(g.total_elements(), 6);
    assert!(g.verify_shape().is_ok());
    let out_of_range = SparseGradient::new(vec![6], vec![1.0f32], vec![2, 3]);
    assert!(matches!(out_of_range.verify_shape(), Err(GradientError::InvalidGradient(_))));
    let uneven = SparseGradient::new(vec![1, 2], vec![1.0f32], vec![4]);
    assert!(matches!(uneven.verify_shape(), Err(GradientError::InvalidGradient(_))));
}

#[test]
fn test_federated_round() {
    let model_cid = Cid::default();
    let mut round = FederatedRound::new(0, model_cid, 5);

    assert_eq!(round.round_num, 0);
    assert_eq!(round.client_count, 5);
    assert_eq!(round.completed_count, 0);
    assert!(!round.is_complete());

    for _ in 0..5 {
        round.mark_client_completed();
    }

    assert_eq!(round.completed_count, 5);
    assert!(round.is_complete());

    let gradient = vec![1.0f32, 2.0, 3.0];
    round.complete(gradient.clone());

    assert_eq!(round.aggregated_gradient, Some(gradient));
    assert!(round.end_time.is_some());
    assert!(round.duration().is_some());
}

#[test]
fn test_federated_round_times_and_admission() {
    let mut round: FederatedRound<Vec<f32>> = FederatedRound::new_at(3, Cid::from_bytes(vec![1, 2]), 2, 1000);
    assert_eq!(round.duration(), None);
    round.complete_at(vec![0.5], 1042);
    assert_eq!(round.duration(), Some(42));
    assert!(round_admission(0, 10, 3, 5).is_ok());
    assert!(matches!(round_admission(0, 10, 5, 3), Err(GradientError::InvalidGradient(_))));
    assert!(matches!(round_admission(2, 2, 1, 2), Err(GradientError::InvalidGradient(_))));
}

#[test]
fn secure_aggregation_counts_participants() {
    for m in 0usize..5 {
        let mut agg = SecureAggregation::new(m);
        for n in 0usize..7 {
            assert_eq!(agg.participant_count(), n);
            assert_eq!(agg.can_aggregate(), n >= m);
            agg.add_participant();
        }
    }
}

#[test]
fn test_sparse_gradient() {
    let indices = vec![0, 5, 10];
    let values = vec![1.0f32, 2.0, 3.0];
    let shape = vec![20];

    let sparse = SparseGradient::new(indices.clone(), values.clone(), shape);

    assert_eq!(sparse.nnz(), 3);
    assert_eq!(sparse.total_elements(), 20);
    // The sparsity ratio is 1 - nnz / total_elements.
    let sparsity_ratio = 1.0 - sparse.nnz() as f32 / sparse.total_elements() as f32;
    assert!((sparsity_ratio - 0.85).abs() < 0.01);

    let dense = sparse.to_dense(0.0);
    assert_eq!(dense.len(), 20);
    assert_eq!(dense[0], 1.0);
    assert_eq!(dense[5], 2.0);
    assert_eq!(dense[10], 3.0);
}

#[test]
fn test_gradient_verification() {
    let gradient = vec![1.0f32, 2.0, 3.0, 4.0];

    // Test shape verification
    assert!(GradientVerifier::verify_shape(&gradient, &[4]).is_ok());
    assert!(GradientVerifier::verify_shape(&gradient, &[2, 2]).is_ok());
    assert!(GradientVerifier::verify_shape(&gradient, &[5]).is_err());

    // Test finite verification (values given by their bit patterns)
    let bits: Vec<u32> = gradient.iter().map(|v| v.to_bits()).collect();
    assert!(GradientVerifier::verify_finite(&bits).is_ok());

    let invalid = vec![1.0f32, f32::NAN, 3.0];
    let invalid_bits: Vec<u32> = invalid.iter().map(|v| v.to_bits()).collect();
    assert!(GradientVerifier::verify_finite(&invalid_bits).is_err());
}

#[test]
fn verify_finite_checks_every_kind_of_value() {
    let ok: Vec<u32> = [0.0f32, -0.0, f32::MIN_POSITIVE, f32::MAX, f32::MIN, 1e-45].iter().map(|v| v.to_bits()).collect();
    assert!(GradientVerifier::verify_finite(&ok).is_ok());
    for bad in [f32::INFINITY, f32::NEG_INFINITY, f32::NAN] {
        let bits = vec![1.0f32.to_bits(), bad.to_bits()];
        match GradientVerifier::verify_finite(&bits) {
            Err(GradientError::InvalidGradient(m)) => assert_eq!(m, "Non-finite value at index 1"),
            other => panic!("unexpected {:?}", other),
        }
    }
}

#[test]
fn sparse_to_dense_later_pair_wins_and_skips_outside() {
    let sparse = SparseGradient::new(vec![1, 7, 1], vec![5u32, 6, 9], vec![3]);
    assert_eq!(sparse.to_dense(0), vec![0, 9, 0]);
}
