use ferveo::hybridvss::{Params, ParamsError};
use ferveo::vss::VSSState;
use rand::rngs::StdRng;
use rand::SeedableRng;

#[test]
fn params_at_the_bound_are_accepted() {
    // W = 7 = 3 * 1 + 2 * 1 + 2, and W = 6 = 3 * 1 + 2 * 1 + 1 is the least.
    let params = Params::new(1, 1, vec![1; 6], 2).unwrap();
    assert_eq!(params.f, 1);
    assert_eq!(params.t, 1);
    assert_eq!(params.d, 2);
    assert_eq!(params.w, vec![1; 6]);
    assert_eq!(params.n(), 6);
    assert_eq!(params.total_weight(), 6);
    assert!(Params::new(1, 1, vec![1; 7], 0).is_ok());
}

#[test]
fn params_below_the_bound_are_refused() {
    assert_eq!(
        Params::new(1, 1, vec![1; 5], 0).unwrap_err(),
        ParamsError::InsufficientWeight
    );
    // The scenario parameters f = 0, t = 4, six unit weights: 6 < 13.
    assert_eq!(
        Params::new(0, 4, vec![1; 6], 0).unwrap_err(),
        ParamsError::InsufficientWeight
    );
}

#[test]
fn params_count_weights_not_participants() {
    // Three participants of weight 2 reach W = 6.
    let params = Params::new(1, 1, vec![2, 2, 2], 1).unwrap();
    assert_eq!(params.n(), 3);
    assert_eq!(params.total_weight(), 6);
    assert_eq!(
        Params::new(1, 1, vec![2, 2, 1], 1).unwrap_err(),
        ParamsError::InsufficientWeight
    );
}

#[test]
fn params_without_participants_are_refused() {
    assert_eq!(
        Params::new(0, 0, vec![], 0).unwrap_err(),
        ParamsError::NoParticipants
    );
}

#[test]
fn params_with_a_dealer_out_of_range_are_refused() {
    assert_eq!(
        Params::new(0, 0, vec![1, 1, 1], 3).unwrap_err(),
        ParamsError::DealerOutOfRange
    );
    assert!(Params::new(0, 0, vec![1, 1, 1], 2).is_ok());
}

#[test]
fn params_with_overflowing_weight_are_refused() {
    assert_eq!(
        Params::new(0, 0, vec![u32::MAX, 1], 0).unwrap_err(),
        ParamsError::WeightOverflow
    );
    assert_eq!(
        Params::new(0, 0, vec![u32::MAX - 1, 1], 0)
            .unwrap()
            .total_weight(),
        u32::MAX
    );
}

#[test]
fn the_first_failing_condition_decides() {
    // No participant and a dealer out of range: the first decides.
    assert_eq!(
        Params::new(5, 5, vec![], 9).unwrap_err(),
        ParamsError::NoParticipants
    );
    // A dealer out of range and too little weight: the first decides.
    assert_eq!(
        Params::new(5, 5, vec![1], 9).unwrap_err(),
        ParamsError::DealerOutOfRange
    );
}

#[test]
fn thresholds_have_their_exact_values() {
    let mut rng = StdRng::seed_from_u64(0);
    // W = 8, t = 5, f = 0: ceil(14 / 2) = 7, f + 1 = 1, W - t - f = 3.
    let params = Params::random_dealer(0, 5, vec![1; 8], &mut rng);
    assert_eq!(params.echo_threshold(), 7);
    assert_eq!(params.amplify_threshold(), 1);
    assert_eq!(params.output_threshold(), 3);
    // W = 6, t = 4, f = 0: ceil(11 / 2) = 6.
    let params = Params::random_dealer(0, 4, vec![1; 6], &mut rng);
    assert_eq!(params.echo_threshold(), 6);
    assert_eq!(params.output_threshold(), 2);
    // W = 12, t = 2, f = 1: ceil(15 / 2) = 8, 2, 9.
    let params = Params::new(1, 2, vec![3; 4], 0).unwrap();
    assert_eq!(params.echo_threshold(), 8);
    assert_eq!(params.amplify_threshold(), 2);
    assert_eq!(params.output_threshold(), 9);
}

#[test]
fn random_dealer_names_a_participant() {
    let mut rng = StdRng::seed_from_u64(11);
    let mut seen = [false; 4];
    for _ in 0..200 {
        let params = Params::random_dealer(0, 1, vec![1; 4], &mut rng);
        assert!(params.d < 4);
        assert_eq!(params.f, 0);
        assert_eq!(params.t, 1);
        assert_eq!(params.w, vec![1; 4]);
        seen[params.d as usize] = true;
    }
    assert!(seen.iter().all(|s| *s));
}

#[test]
fn duplicate_copies_the_parameters() {
    let params = Params::new(1, 1, vec![1, 2, 3], 1).unwrap();
    let copy = params.duplicate();
    assert_eq!(copy.f, 1);
    assert_eq!(copy.t, 1);
    assert_eq!(copy.d, 1);
    assert_eq!(copy.w, vec![1, 2, 3]);
}

#[test]
fn vss_state_holds_its_variants() {
    let sharing: VSSState<u8> = VSSState::Sharing { weight_ready: 3 };
    let success: VSSState<u8> = VSSState::Success { final_secret: 9 };
    let failure: VSSState<u8> = VSSState::Failure;
    assert!(matches!(sharing.clone(), VSSState::Sharing { weight_ready: 3 }));
    assert!(matches!(success.clone(), VSSState::Success { final_secret: 9 }));
    assert!(matches!(failure.clone(), VSSState::Failure));
    assert_eq!(format!("{:?}", failure), "Failure");
}
