//! The behaviour of the exposed operations, exercised end to end on the
//! in-memory system state.

use rosca::pallet::Pallet;
use rosca::types::Error;
use rosca::types::PaymentAssets;

// Helper to advance the injected clock
fn advance_time_and_block(p: &mut Pallet, timestamp: u64) {
    let t = p.timestamp();
    p.set_timestamp(t + timestamp);
}

// Setup a basic ROSCA with three participants
fn setup_basic_rosca() -> (Pallet, u64, Vec<u64>) {
    let mut p = Pallet::new();
    p.set_timestamp(1);

    let creator = 1u64;
    let participants_vec = vec![2, 3];
    p.mint_into(creator, 10000).unwrap();
    p.mint_into(2, 10000).unwrap();
    p.mint_into(3, 10000).unwrap();

    assert_eq!(
        p.create_rosca(creator, false, participants_vec.clone(), 3, 100, PaymentAssets::USDT, 10, 20, Some(0), vec![1]),
        Ok(())
    );

    for participant in participants_vec.iter() {
        assert_eq!(p.join_rosca(*participant, 0, None), Ok(()));
    }

    assert_eq!(p.start_rosca(creator, 0), Ok(()));
    (p, creator, participants_vec)
}

#[test]
fn create_rosca_works() {
    let mut p = Pallet::new();
    p.set_timestamp(1);

    let participants = vec![2, 3, 4];
    p.mint_into(1, 1000).unwrap();

    assert_eq!(
        p.create_rosca(1, false, participants, 4, 100, PaymentAssets::USDT, 50, 51, Some(0), vec![1]),
        Ok(())
    );

    assert_eq!(p.next_rosca_id(), 1);
    assert!(p.rosca_details(0).is_some());
    assert_eq!(p.participants_count(0), Some(1));
    assert_eq!(p.participants(0, 1), Some(0));
    assert!(p.invited_preverified_participants(0, 1).is_some());
    assert!(p.invited_preverified_participants(0, 2).is_some());
}

#[test]
fn create_rosca_fails_with_past_start_timestamp() {
    let mut p = Pallet::new();
    p.set_timestamp(10);

    let participants = vec![2, 3];
    p.mint_into(1, 1000).unwrap();

    assert_eq!(
        p.create_rosca(1, false, participants, 3, 100, PaymentAssets::USDT, 50, 9, Some(0), vec![1]),
        Err(Error::StartByTimestampMustBeFuture)
    );
}

#[test]
fn create_rosca_fails_with_zero_contribution() {
    let mut p = Pallet::new();
    p.set_timestamp(1);

    let participants = vec![2, 3];
    p.mint_into(1, 1000).unwrap();

    assert_eq!(
        p.create_rosca(1, false, participants, 3, 0, PaymentAssets::USDT, 50, 51, Some(0), vec![1]),
        Err(Error::ContributionAmountMustBePositive)
    );
}

#[test]
fn create_rosca_fails_with_zero_frequency() {
    let mut p = Pallet::new();
    p.set_timestamp(1);

    let participants = vec![2, 3];
    p.mint_into(1, 1000).unwrap();

    assert_eq!(
        p.create_rosca(1, false, participants, 3, 100, PaymentAssets::USDT, 0, 51, Some(0), vec![1]),
        Err(Error::FrequencyMustBePositive)
    );
}

#[test]
fn join_rosca_works() {
    let mut p = Pallet::new();
    p.set_timestamp(1);

    let participants = vec![2, 3, 4];
    p.mint_into(1, 1000).unwrap();
    p.mint_into(2, 1000).unwrap();
    p.mint_into(3, 1000).unwrap();
    p.mint_into(4, 1000).unwrap();

    assert_eq!(
        p.create_rosca(1, false, participants, 3, 100, PaymentAssets::USDT, 50, 51, Some(0), vec![1]),
        Ok(())
    );

    assert_eq!(p.join_rosca(2, 0, None), Ok(()));
    assert_eq!(p.participants_count(0), Some(2));
    assert!(p.participants(0, 2).is_some());

    assert_eq!(p.join_rosca(2, 0, None), Err(Error::AlreadyJoined));
    assert_eq!(p.join_rosca(5, 0, None), Err(Error::NotInvited));
}

#[test]
fn join_rosca_fails_with_invalid_position() {
    let mut p = Pallet::new();
    p.set_timestamp(1);

    let participants = vec![2, 3];
    p.mint_into(1, 1000).unwrap();
    p.mint_into(2, 1000).unwrap();

    assert_eq!(
        p.create_rosca(1, false, participants, 3, 100, PaymentAssets::USDT, 50, 51, Some(0), vec![1]),
        Ok(())
    );

    assert_eq!(p.join_rosca(2, 0, Some(5)), Err(Error::PositionTooLarge));
    assert_eq!(p.join_rosca(2, 0, Some(0)), Err(Error::PositionAlreadyFilled));
}

#[test]
fn leave_rosca_works() {
    let mut p = Pallet::new();
    p.set_timestamp(1);

    let participants = vec![2, 3];
    p.mint_into(1, 1000).unwrap();
    p.mint_into(2, 1000).unwrap();

    assert_eq!(
        p.create_rosca(1, false, participants, 2, 100, PaymentAssets::USDT, 50, 51, Some(0), vec![1]),
        Ok(())
    );

    assert_eq!(p.join_rosca(2, 0, None), Ok(()));
    assert_eq!(p.add_to_security_deposit(2, 0, 100), Ok(()));

    assert_eq!(p.leave_rosca(2, 0), Ok(()));
    assert_eq!(p.participants_count(0), Some(1));
    assert_eq!(p.security_deposit(0, 2), None);
    assert_eq!(p.free_balance(2), 1000); // Deposit returned
}

#[test]
fn leave_rosca_fails_when_active() {
    let (mut p, _creator, _participants) = setup_basic_rosca();
    assert_eq!(p.leave_rosca(2, 0), Err(Error::RoscaAlreadyActive));
}

#[test]
fn start_rosca_works() {
    let mut p = Pallet::new();
    p.set_timestamp(1);

    let participants = vec![2, 3];
    p.mint_into(1, 1000).unwrap();
    p.mint_into(2, 1000).unwrap();
    p.mint_into(3, 1000).unwrap();

    assert_eq!(
        p.create_rosca(1, false, participants, 3, 100, PaymentAssets::USDT, 10, 20, Some(0), vec![1]),
        Ok(())
    );

    for participant in vec![2, 3].iter() {
        assert_eq!(p.join_rosca(*participant, 0, None), Ok(()));
    }

    assert_eq!(p.start_rosca(1, 0), Ok(()));
    assert!(p.active_roscas(0).is_some());
    assert_eq!(p.next_pay_by_timestamp(0), Some(11));
    assert_eq!(p.final_pay_by_timestamp(0), Some(31));
}

#[test]
fn start_rosca_fails_threshold_not_met() {
    let mut p = Pallet::new();
    p.set_timestamp(1);

    let participants = vec![2, 3];
    p.mint_into(1, 1000).unwrap();

    assert_eq!(
        p.create_rosca(1, false, participants, 3, 100, PaymentAssets::USDT, 50, 51, Some(0), vec![1]),
        Ok(())
    );

    assert_eq!(p.start_rosca(1, 0), Err(Error::ParticipantThresholdNotMet));
}

#[test]
fn contribute_to_rosca_works() {
    let (mut p, creator, _) = setup_basic_rosca();

    // First contribution round:
    // Participant 2 contributes.
    assert_eq!(p.contribute_to_rosca(2, 0), Ok(()));
    // The initial eligible claimant is the creator (account 1), so the
    // creator receives 100 and participant 2 loses 100.
    assert_eq!(p.free_balance(creator), 10100);
    assert_eq!(p.free_balance(2), 9900);
    // Contribution count should now be 1.
    assert_eq!(p.current_contribution_count(0), 1);

    // Participant 3 contributes.
    assert_eq!(p.contribute_to_rosca(3, 0), Ok(()));
    // Since this is the final contribution for the round, the round advances:
    // the count resets, next_pay_by_timestamp moves to 21, and the eligible
    // claimant rotates.
    assert_eq!(p.current_contribution_count(0), 0);
    assert_eq!(p.next_pay_by_timestamp(0), Some(21));

    let new_eligible = p.eligible_claimant(0).unwrap();
    assert_eq!(new_eligible, 2);
    assert_ne!(new_eligible, creator);
}

#[test]
fn contribute_with_insufficient_balance_fails() {
    let (mut p, _creator, _participants) = setup_basic_rosca();
    p.set_balance(2, 50); // Less than 100

    assert_eq!(p.contribute_to_rosca(2, 0), Err(Error::FundsUnavailable));
}

#[test]
fn contribute_to_rosca_fails_for_eligible_claimant() {
    let (mut p, _creator, _participants) = setup_basic_rosca();
    let eligible = p.eligible_claimant(0).unwrap();

    assert_eq!(p.contribute_to_rosca(eligible, 0), Err(Error::CantContributeToSelf));
}

#[test]
fn contribute_twice_in_same_period_fails() {
    let (mut p, _creator, _participants) = setup_basic_rosca();

    assert_eq!(p.contribute_to_rosca(2, 0), Ok(()));
    assert_eq!(p.contribute_to_rosca(2, 0), Err(Error::AlreadyContributed));
}

#[test]
fn contribute_after_final_pay_completes() {
    let (mut p, _creator, _participants) = setup_basic_rosca();
    p.set_timestamp(40);

    assert_eq!(p.contribute_to_rosca(2, 0), Ok(()));
    assert!(p.completed_roscas(0).is_some());
}

#[test]
fn contribute_non_participant_fails() {
    let (mut p, _creator, _participants) = setup_basic_rosca();
    p.mint_into(4, 1000).unwrap();

    assert_eq!(p.contribute_to_rosca(4, 0), Err(Error::NotAParticipant));
}

#[test]
fn manually_end_rosca_works() {
    let (mut p, _creator, _participants) = setup_basic_rosca();
    p.set_timestamp(40);

    assert_eq!(p.manually_end_rosca(1, 0), Ok(()));
    assert!(p.completed_roscas(0).is_some());
}

#[test]
fn manually_end_before_final_pay_fails() {
    let (mut p, _creator, _participants) = setup_basic_rosca();
    p.set_timestamp(25);

    assert_eq!(p.manually_end_rosca(1, 0), Err(Error::FinalPayByTimestampMustBePast));
}

#[test]
fn claim_security_deposit_works() {
    let (mut p, _creator, _participants) = setup_basic_rosca();
    assert_eq!(p.add_to_security_deposit(2, 0, 200), Ok(()));
    p.set_timestamp(40);
    assert_eq!(p.manually_end_rosca(1, 0), Ok(()));

    assert_eq!(p.claim_security_deposit(2, 0), Err(Error::SecurityDepositIsZero));
}

#[test]
fn claim_security_deposit_before_completion_fails() {
    let (mut p, _creator, _participants) = setup_basic_rosca();
    assert_eq!(p.add_to_security_deposit(2, 0, 200), Ok(()));

    assert_eq!(p.claim_security_deposit(2, 0), Err(Error::FinalPayByTimestampMustBePast));
}

#[test]
fn add_to_security_deposit_after_completion_fails() {
    let (mut p, _creator, _participants) = setup_basic_rosca();
    p.set_timestamp(40);
    assert_eq!(p.manually_end_rosca(1, 0), Ok(()));

    assert_eq!(p.add_to_security_deposit(2, 0, 100), Err(Error::RoscaAlreadyCompleted));
}

#[test]
fn random_order_shuffles_participants() {
    let mut p = Pallet::new();
    p.set_timestamp(1);

    let participants = vec![2, 3];
    p.mint_into(1, 1000).unwrap();
    p.mint_into(2, 1000).unwrap();
    p.mint_into(3, 1000).unwrap();

    assert_eq!(
        p.create_rosca(1, true, participants, 3, 100, PaymentAssets::USDT, 10, 20, Some(0), vec![1]),
        Ok(())
    );

    for participant in vec![2, 3].iter() {
        assert_eq!(p.join_rosca(*participant, 0, None), Ok(()));
    }

    assert_eq!(p.start_rosca(1, 0), Ok(()));
    let active_order = p.active_rosca_participants_order(0).unwrap();
    // Note: Exact order can't be deterministic, but ensure it's populated
    assert_eq!(active_order.len(), 3);
}

#[test]
fn process_defaulters_sufficient_deposit() {
    let (mut p, _creator, _participants) = setup_basic_rosca();
    assert_eq!(p.add_to_security_deposit(3, 0, 100), Ok(()));
    p.set_timestamp(15);

    // Catch-up rotates eligibility onto participant 2, so participant 3
    // makes the triggering contribution.
    assert_eq!(p.contribute_to_rosca(3, 0), Ok(()));
    assert_eq!(p.default_count(0, 3), 0);
    assert_eq!(p.security_deposit(0, 3), Some(0));
}

#[test]
fn process_defaulters_insufficient_deposit() {
    let (mut p, _creator, _participants) = setup_basic_rosca();
    assert_eq!(p.add_to_security_deposit(3, 0, 50), Ok(()));
    p.set_timestamp(15);

    // Catch-up rotates eligibility onto participant 2, so participant 3
    // makes the triggering contribution.
    assert_eq!(p.contribute_to_rosca(3, 0), Ok(()));
    assert_eq!(p.default_count(0, 3), 1);
    assert_eq!(p.security_deposit(0, 3), Some(0));
}

#[test]
fn max_participants_edge_case() {
    let mut p = Pallet::new();
    p.set_timestamp(1);

    let mut participants_vec: Vec<u64> = vec![];
    for i in 2..150 {
        participants_vec.push(i);
        p.mint_into(i, 1000).unwrap();
    }
    p.mint_into(1, 1000).unwrap();

    assert_eq!(
        p.create_rosca(1, false, participants_vec, 149, 100, PaymentAssets::USDT, 50, 51, Some(0), vec![1]),
        Ok(())
    );
}

#[test]
fn eligible_claimant_rotation_works_correctly() {
    let (mut p, creator, participants_vec) = setup_basic_rosca();
    let all_participants = vec![creator, participants_vec[0], participants_vec[1]]; // [1, 2, 3]
    let mut round_claimants = Vec::new();

    for _ in 0..3 {
        let current_eligible = p.eligible_claimant(0).unwrap();
        round_claimants.push(current_eligible);
        for participant in &all_participants {
            if *participant != current_eligible {
                assert_eq!(p.contribute_to_rosca(*participant, 0), Ok(()));
            }
        }
    }

    // Verify each participant is eligible once
    assert_eq!(round_claimants.len(), 3);
    assert!(round_claimants.contains(&1));
    assert!(round_claimants.contains(&2));
    assert!(round_claimants.contains(&3));
}

#[test]
fn test_time_based_round_advancement() {
    // After start_rosca, the pending order [Some(1), Some(2), Some(3)] is
    // reversed to [3,2,1], then rotated so that the active order becomes
    // [1,3,2] and the eligible claimant is set to 1.
    let (mut p, _creator, _participants_vec) = setup_basic_rosca();
    assert_eq!(p.eligible_claimant(0), Some(1));
    let initial_order = p.active_rosca_participants_order(0).unwrap();
    assert_eq!(initial_order, vec![1, 3, 2]);

    // --- Round 1: Time-based catch-up advancement ---
    let next_pay_by = p.next_pay_by_timestamp(0).unwrap();
    let current_time = p.timestamp();
    advance_time_and_block(&mut p, next_pay_by.saturating_sub(current_time) + 1);

    // Have a non-eligible participant contribute to trigger catch-up:
    // the order [1,3,2] yields new eligible claimant 2 and rotates to
    // [2,1,3].
    assert_eq!(p.contribute_to_rosca(3, 0), Ok(()));
    assert_eq!(p.eligible_claimant(0), Some(2));
    let active_order = p.active_rosca_participants_order(0).unwrap();
    assert_eq!(active_order, vec![2, 1, 3]);

    // --- Round 2: Another time-triggered round ---
    let next_pay_by = p.next_pay_by_timestamp(0).unwrap();
    let current_time = p.timestamp();
    advance_time_and_block(&mut p, next_pay_by.saturating_sub(current_time) + 1);

    // With the active order [2,1,3]: new eligible becomes 3, and the order
    // rotates right to [3,2,1].
    assert_eq!(p.contribute_to_rosca(1, 0), Ok(()));
    assert_eq!(p.eligible_claimant(0), Some(3));
    let active_order = p.active_rosca_participants_order(0).unwrap();
    assert_eq!(active_order, vec![3, 2, 1]);

    // --- Round 3: Yet another time-triggered round ---
    let next_pay_by = p.next_pay_by_timestamp(0).unwrap();
    let current_time = p.timestamp();
    advance_time_and_block(&mut p, next_pay_by.saturating_sub(current_time) + 1);

    // With active order [3,2,1]: new eligible becomes 1, and the order
    // rotates right to [1,3,2].
    assert_eq!(p.contribute_to_rosca(2, 0), Ok(()));
    assert_eq!(p.eligible_claimant(0), Some(1));
    let active_order = p.active_rosca_participants_order(0).unwrap();
    assert_eq!(active_order, vec![1, 3, 2]);
}

#[test]
fn test_final_contribution_round_advancement() {
    // After start, active order is [1,3,2] and eligible claimant is 1.
    let (mut p, _creator, _participants_vec) = setup_basic_rosca();
    assert_eq!(p.eligible_claimant(0), Some(1));
    let initial_order = p.active_rosca_participants_order(0).unwrap();
    assert_eq!(initial_order, vec![1, 3, 2]);

    // --- Round 1: Normal (final contribution) advancement ---
    assert_eq!(p.contribute_to_rosca(3, 0), Ok(()));
    // Final contribution from participant 2: before rotating, the eligible
    // claimant is set from [1,3,2] to 2, then the order rotates to [2,1,3].
    assert_eq!(p.contribute_to_rosca(2, 0), Ok(()));
    assert_eq!(p.eligible_claimant(0), Some(2));
    let active_order = p.active_rosca_participants_order(0).unwrap();
    assert_eq!(active_order, vec![2, 1, 3]);

    // --- Round 2: Next normal round advancement ---
    assert_eq!(p.contribute_to_rosca(1, 0), Ok(()));
    // Final contribution from participant 3: eligible becomes 3, the order
    // rotates to [3,2,1].
    assert_eq!(p.contribute_to_rosca(3, 0), Ok(()));
    assert_eq!(p.eligible_claimant(0), Some(3));
    let active_order = p.active_rosca_participants_order(0).unwrap();
    assert_eq!(active_order, vec![3, 2, 1]);
}

#[test]
fn test_timestamp_updates_during_round_advancement() {
    let (mut p, _creator, _participants_vec) = setup_basic_rosca();
    let initial_next = p.next_pay_by_timestamp(0).unwrap();

    // First, let participant 3 contribute.
    assert_eq!(p.contribute_to_rosca(3, 0), Ok(()));
    // Before the final contribution, next_pay_by_timestamp stays unchanged.
    assert_eq!(p.next_pay_by_timestamp(0).unwrap(), initial_next);

    // Final contribution by participant 2.
    assert_eq!(p.contribute_to_rosca(2, 0), Ok(()));
    // The next_pay_by_timestamp now advances by the contribution frequency
    // (10 in this setup).
    let updated_next = p.next_pay_by_timestamp(0).unwrap();
    assert_eq!(updated_next, initial_next + 10);
}

#[test]
fn test_rosca_completion_after_final_pay_by() {
    let (mut p, _creator, _participants_vec) = setup_basic_rosca();
    let final_pay_by = p.final_pay_by_timestamp(0).unwrap();
    let current_time = p.timestamp();
    advance_time_and_block(&mut p, final_pay_by.saturating_sub(current_time) + 1);

    // A contribution now should complete the ROSCA.
    assert_eq!(p.contribute_to_rosca(2, 0), Ok(()));
    assert!(p.completed_roscas(0).is_some());
}
