//! Scenario and property checks beyond the basic operation tests: the
//! full-cycle scenario, default handling with partial cover, deposit
//! accounting, the shuffle, the published schedule, and the error guards.

use rosca::pallet::Pallet;
use rosca::types::Error;
use rosca::types::Event;
use rosca::types::PaymentAssets;
use rosca::types::ROSCA_ACCOUNT_BASE;

fn three_member_rosca() -> Pallet {
    let mut p = Pallet::new();
    p.set_timestamp(1);
    p.mint_into(1, 10000).unwrap();
    p.mint_into(2, 10000).unwrap();
    p.mint_into(3, 10000).unwrap();
    assert_eq!(
        p.create_rosca(1, false, vec![2, 3], 3, 100, PaymentAssets::USDT, 10, 20, Some(0), vec![1]),
        Ok(())
    );
    assert_eq!(p.join_rosca(2, 0, None), Ok(()));
    assert_eq!(p.join_rosca(3, 0, None), Ok(()));
    p
}

#[test]
fn full_cycle_scenario() {
    // Creator 1, invited [2,3], threshold 3, amount 100, frequency 10,
    // start-by 20, created and started at t = 1.
    let mut p = three_member_rosca();
    assert_eq!(p.start_rosca(1, 0), Ok(()));
    assert_eq!(p.next_pay_by_timestamp(0), Some(11));
    assert_eq!(p.final_pay_by_timestamp(0), Some(31));

    // Round 1: the two non-claimants contribute; the round completes and
    // the deadline advances to 21.
    assert_eq!(p.eligible_claimant(0), Some(1));
    assert_eq!(p.contribute_to_rosca(2, 0), Ok(()));
    assert_eq!(p.contribute_to_rosca(3, 0), Ok(()));
    assert_eq!(p.next_pay_by_timestamp(0), Some(21));

    // Round 2.
    assert_eq!(p.eligible_claimant(0), Some(2));
    assert_eq!(p.contribute_to_rosca(1, 0), Ok(()));
    assert_eq!(p.contribute_to_rosca(3, 0), Ok(()));
    assert_eq!(p.next_pay_by_timestamp(0), Some(31));

    // Round 3: the final round; completing it completes the Rosca.
    assert_eq!(p.eligible_claimant(0), Some(3));
    assert_eq!(p.contribute_to_rosca(1, 0), Ok(()));
    assert_eq!(p.contribute_to_rosca(2, 0), Ok(()));
    assert!(p.completed_roscas(0).is_some());

    // Everyone received the pool exactly once: balances are level again.
    assert_eq!(p.free_balance(1), 10000);
    assert_eq!(p.free_balance(2), 10000);
    assert_eq!(p.free_balance(3), 10000);

    // Further contributions fail.
    assert_eq!(p.contribute_to_rosca(1, 0), Err(Error::RoscaAlreadyCompleted));
    assert_eq!(p.contribute_to_rosca(2, 0), Err(Error::RoscaAlreadyCompleted));
}

#[test]
fn partial_default_covers_only_the_deposit() {
    // A participant with deposit 50 and contribution amount 100 misses a
    // round: the deposit drops to 0, their default count rises by one, and
    // the claimant receives only the 50 for that participant's share.
    let mut p = three_member_rosca();
    assert_eq!(p.start_rosca(1, 0), Ok(()));
    assert_eq!(p.add_to_security_deposit(3, 0, 50), Ok(()));
    assert_eq!(p.free_balance(3), 9950);

    p.set_timestamp(15);
    // Catch-up rotates eligibility onto participant 2, so participant 3
    // makes the triggering contribution.
    assert_eq!(p.contribute_to_rosca(3, 0), Ok(()));

    assert_eq!(p.security_deposit(0, 3), Some(0));
    assert_eq!(p.default_count(0, 3), 1);
    // Claimant 1 received 50 instead of 100 for participant 3's share.
    assert_eq!(p.free_balance(1), 10050);
}

#[test]
fn claimant_after_catch_up_cannot_contribute() {
    // One round elapses unattended; settling it makes participant 2 the
    // eligible claimant. Participant 2's own contribution is then
    // rejected — also against the claimant in force after catch-up — and
    // the whole call, the catch-up included, leaves the state unchanged.
    let mut p = three_member_rosca();
    assert_eq!(p.start_rosca(1, 0), Ok(()));
    assert_eq!(p.add_to_security_deposit(3, 0, 50), Ok(()));
    p.set_timestamp(15);

    assert_eq!(p.contribute_to_rosca(2, 0), Err(Error::CantContributeToSelf));

    // Nothing moved: no settlement, no rotation, no mark.
    assert_eq!(p.eligible_claimant(0), Some(1));
    assert_eq!(p.next_pay_by_timestamp(0), Some(11));
    assert_eq!(p.security_deposit(0, 3), Some(50));
    assert_eq!(p.default_count(0, 3), 0);
    assert_eq!(p.free_balance(1), 10000);
    assert_eq!(p.free_balance(2), 10000);
    assert_eq!(p.current_contributors(0, 2), None);
}

#[test]
fn add_deposit_moves_exactly_the_amount() {
    let mut p = three_member_rosca();
    assert_eq!(p.add_to_security_deposit(2, 0, 200), Ok(()));
    assert_eq!(p.security_deposit(0, 2), Some(200));
    assert_eq!(p.free_balance(2), 9800);
    assert_eq!(p.free_balance(Pallet::rosca_account_id(0)), 200);

    // A second top-up accumulates.
    assert_eq!(p.add_to_security_deposit(2, 0, 50), Ok(()));
    assert_eq!(p.security_deposit(0, 2), Some(250));
    assert_eq!(p.free_balance(2), 9750);
}

#[test]
fn claim_deposit_returns_exactly_the_prior_balance() {
    let mut p = three_member_rosca();
    assert_eq!(p.add_to_security_deposit(2, 0, 200), Ok(()));
    // The Rosca never starts; once the final-pay-by error cannot apply we
    // need a completed or pending Rosca past its deadlines. Leave refunds
    // instead while pending:
    assert_eq!(p.leave_rosca(2, 0), Ok(()));
    assert_eq!(p.free_balance(2), 10000);
    assert_eq!(p.security_deposit(0, 2), None);
}

#[test]
fn claim_deposit_after_completion_returns_remainder() {
    let mut p = three_member_rosca();
    assert_eq!(p.start_rosca(1, 0), Ok(()));
    // Deposit large enough to survive the settlement: participant 2
    // misses the two rounds it is not the claimant of, at 100 each.
    assert_eq!(p.add_to_security_deposit(2, 0, 350), Ok(()));
    p.set_timestamp(40);
    assert_eq!(p.manually_end_rosca(1, 0), Ok(()));
    assert_eq!(p.security_deposit(0, 2), Some(150));

    let before = p.free_balance(2);
    assert_eq!(p.claim_security_deposit(2, 0), Ok(()));
    assert_eq!(p.free_balance(2), before + 150);
    assert_eq!(p.security_deposit(0, 2), None);

    // A second claim finds no record.
    assert_eq!(p.claim_security_deposit(2, 0), Err(Error::SecurityDepositNotFound));
}

#[test]
fn leave_after_completion_fails() {
    let mut p = three_member_rosca();
    assert_eq!(p.start_rosca(1, 0), Ok(()));
    p.set_timestamp(40);
    assert_eq!(p.manually_end_rosca(1, 0), Ok(()));
    assert_eq!(p.leave_rosca(2, 0), Err(Error::RoscaNotFound));
}

#[test]
fn claim_deposit_while_active_fails() {
    let mut p = three_member_rosca();
    assert_eq!(p.start_rosca(1, 0), Ok(()));
    assert_eq!(p.add_to_security_deposit(2, 0, 200), Ok(()));
    p.set_timestamp(40);
    // Past the final deadline but nobody has ended the Rosca yet.
    assert_eq!(p.claim_security_deposit(2, 0), Err(Error::RoscaStillActive));
}

#[test]
fn claim_deposit_on_pending_rosca_fails() {
    let mut p = three_member_rosca();
    p.set_timestamp(40);
    assert_eq!(p.claim_security_deposit(2, 0), Err(Error::FinalPayByTimestampNotFound));
}

#[test]
fn manually_end_pending_rosca_fails() {
    let mut p = three_member_rosca();
    assert_eq!(p.manually_end_rosca(1, 0), Err(Error::RoscaNotActive));
}

#[test]
fn contribute_to_pending_rosca_fails() {
    let mut p = three_member_rosca();
    assert_eq!(p.contribute_to_rosca(2, 0), Err(Error::RoscaNotActive));
}

#[test]
fn create_rejects_self_invitation() {
    let mut p = Pallet::new();
    p.set_timestamp(1);
    assert_eq!(
        p.create_rosca(1, false, vec![1, 2], 2, 100, PaymentAssets::USDT, 10, 20, Some(0), vec![1]),
        Err(Error::CantInviteSelf)
    );
}

#[test]
fn create_rejects_too_high_threshold() {
    let mut p = Pallet::new();
    p.set_timestamp(1);
    assert_eq!(
        p.create_rosca(1, false, vec![2, 3], 4, 100, PaymentAssets::USDT, 10, 20, Some(0), vec![1]),
        Err(Error::ThresholdTooHigh)
    );
}

#[test]
fn create_rejects_oversized_group() {
    let mut p = Pallet::new();
    p.set_timestamp(1);
    let invited: Vec<u64> = (2..152).collect();
    assert_eq!(
        p.create_rosca(1, false, invited, 1, 100, PaymentAssets::USDT, 10, 20, Some(0), vec![1]),
        Err(Error::TooManyProposedParticipants)
    );
}

#[test]
fn create_rejects_position_beyond_group() {
    let mut p = Pallet::new();
    p.set_timestamp(1);
    assert_eq!(
        p.create_rosca(1, false, vec![2, 3], 3, 100, PaymentAssets::USDT, 10, 20, Some(7), vec![1]),
        Err(Error::PositionTooLarge)
    );
}

#[test]
fn create_deduplicates_invitations() {
    let mut p = Pallet::new();
    p.set_timestamp(1);
    // [2, 3, 3, 2] deduplicates to two invitees: three slots in all.
    assert_eq!(
        p.create_rosca(1, false, vec![2, 3, 3, 2], 3, 100, PaymentAssets::USDT, 10, 20, Some(0), vec![1]),
        Ok(())
    );
    assert_eq!(p.join_rosca(2, 0, None), Ok(()));
    assert_eq!(p.join_rosca(3, 0, None), Ok(()));
    assert_eq!(p.participants_count(0), Some(3));
    // All slots are filled now.
    p.mint_into(4, 100).unwrap();
    assert_eq!(p.join_rosca(4, 0, None), Err(Error::NotInvited));
}

#[test]
fn join_when_full_reports_already_joined() {
    let mut p = Pallet::new();
    p.set_timestamp(1);
    assert_eq!(
        p.create_rosca(1, false, vec![2], 1, 100, PaymentAssets::USDT, 10, 20, Some(0), vec![1]),
        Ok(())
    );
    assert_eq!(p.join_rosca(2, 0, None), Ok(()));
    // Both slots taken; invite list is closed, so a second account cannot
    // even reach the position check, but the joined member can:
    assert_eq!(p.join_rosca(2, 0, None), Err(Error::AlreadyJoined));
    assert_eq!(p.participants_count(0), Some(2));
}

#[test]
fn join_after_deadline_fails() {
    let mut p = three_member_rosca();
    // A third invitee exists? All joined already; create a second Rosca.
    assert_eq!(
        p.create_rosca(1, false, vec![2, 3], 3, 100, PaymentAssets::USDT, 10, 20, Some(0), vec![1]),
        Ok(())
    );
    p.set_timestamp(20);
    assert_eq!(p.join_rosca(2, 1, None), Err(Error::StartByTimestampMustBeFuture));
}

#[test]
fn join_rejoining_after_leave_works() {
    // The pending count moves by exactly one per join and leave, and
    // is capped at the configured size.
    let mut p = Pallet::new();
    p.set_timestamp(1);
    assert_eq!(
        p.create_rosca(1, false, vec![2, 3], 3, 100, PaymentAssets::USDT, 10, 20, Some(0), vec![1]),
        Ok(())
    );
    assert_eq!(p.participants_count(0), Some(1));
    assert_eq!(p.join_rosca(2, 0, None), Ok(()));
    assert_eq!(p.participants_count(0), Some(2));
    assert_eq!(p.leave_rosca(2, 0), Ok(()));
    assert_eq!(p.participants_count(0), Some(1));
    assert_eq!(p.join_rosca(2, 0, Some(1)), Ok(()));
    assert_eq!(p.join_rosca(3, 0, None), Ok(()));
    assert_eq!(p.participants_count(0), Some(3));
}

#[test]
fn shuffle_is_a_permutation_and_deterministic_per_entropy() {
    let mut a = vec![10u64, 20, 30, 40, 50];
    let entropy = vec![7u8, 1, 9, 4, 2];
    Pallet::shuffle_participants(&mut a, &entropy);
    let mut sorted = a.clone();
    sorted.sort();
    assert_eq!(sorted, vec![10, 20, 30, 40, 50]);

    let mut b = vec![10u64, 20, 30, 40, 50];
    Pallet::shuffle_participants(&mut b, &entropy);
    assert_eq!(a, b);

    // Empty entropy still permutes (every draw falls back to zero).
    let mut c = vec![1u64, 2, 3];
    Pallet::shuffle_participants(&mut c, &vec![]);
    let mut sorted_c = c.clone();
    sorted_c.sort();
    assert_eq!(sorted_c, vec![1, 2, 3]);
}

#[test]
fn generate_rounds_walks_the_order_backwards() {
    let rounds = Pallet::generate_rounds(vec![3, 2, 1], 1, 10).unwrap();
    assert_eq!(rounds.len(), 3);

    assert_eq!(rounds[0].round_number, 1);
    assert_eq!(rounds[0].payment_cutoff, 1);
    assert_eq!(rounds[0].recipient, 1);
    assert_eq!(rounds[0].expected_contributors, vec![3, 2]);

    assert_eq!(rounds[1].round_number, 2);
    assert_eq!(rounds[1].payment_cutoff, 11);
    assert_eq!(rounds[1].recipient, 2);
    assert_eq!(rounds[1].expected_contributors, vec![3, 1]);

    assert_eq!(rounds[2].round_number, 3);
    assert_eq!(rounds[2].payment_cutoff, 21);
    assert_eq!(rounds[2].recipient, 3);
    assert_eq!(rounds[2].expected_contributors, vec![2, 1]);
}

#[test]
fn generate_rounds_rejects_overflowing_schedule() {
    assert_eq!(
        Pallet::generate_rounds(vec![1, 2], u64::MAX - 5, 10),
        Err(Error::ArithmeticOverflow)
    );
}

#[test]
fn rosca_account_ids_are_disjoint_per_rosca() {
    assert_eq!(Pallet::rosca_account_id(0), ROSCA_ACCOUNT_BASE);
    assert_eq!(Pallet::rosca_account_id(7), ROSCA_ACCOUNT_BASE + 7);
    assert_ne!(Pallet::rosca_account_id(0), Pallet::rosca_account_id(1));
}

#[test]
fn payment_asset_ids() {
    assert_eq!(PaymentAssets::USDT.id(), 1984);
    assert_eq!(PaymentAssets::USDC.id(), 1337);
}

#[test]
fn ledger_mint_set_and_balances() {
    let mut p = Pallet::new();
    assert_eq!(p.free_balance(9), 0);
    p.mint_into(9, 500).unwrap();
    assert_eq!(p.free_balance(9), 500);
    p.mint_into(9, 25).unwrap();
    assert_eq!(p.free_balance(9), 525);
    p.set_balance(9, 50);
    assert_eq!(p.free_balance(9), 50);
}

#[test]
fn join_emits_event() {
    let mut p = three_member_rosca();
    let last = p.events().last().unwrap();
    assert!(matches!(last, Event::JoinedRosca { rosca_id: 0, contributor: 3 }));
    assert_eq!(p.start_rosca(1, 0), Ok(()));
    let last = p.events().last().unwrap();
    assert!(matches!(last, Event::RoscaStarted { rosca_id: 0, started_by: 1, .. }));
}

#[test]
fn creation_event_lists_normalized_invitations() {
    let mut p = Pallet::new();
    p.set_timestamp(1);
    // Invitations arrive unsorted with a duplicate; the event carries the
    // creator first, then the invited set sorted and deduplicated.
    assert_eq!(
        p.create_rosca(1, false, vec![5, 3, 5, 2], 1, 100, PaymentAssets::USDT, 10, 20, Some(0), vec![1]),
        Ok(())
    );
    match p.events().last().unwrap() {
        Event::RoscaCreated { eligible_participants, number_of_participants, .. } => {
            assert_eq!(*eligible_participants, vec![1, 2, 3, 5]);
            assert_eq!(*number_of_participants, 4);
        },
        other => panic!("unexpected event {:?}", other),
    }
}

#[test]
fn contribution_and_settlement_events_in_order() {
    // One elapsed round settled by catch-up, then a contribution: the
    // emitted notifications follow the settlement in order.
    let mut p = three_member_rosca();
    assert_eq!(p.start_rosca(1, 0), Ok(()));
    assert_eq!(p.add_to_security_deposit(3, 0, 50), Ok(()));
    p.set_timestamp(15);
    let before = p.events().len();
    assert_eq!(p.contribute_to_rosca(3, 0), Ok(()));
    let tail = &p.events()[before..];
    // Participant 3's deposit partially covers, then defaults; participant
    // 2 defaults outright; the round advances; the contribution lands.
    assert_eq!(tail.len(), 5);
    assert!(matches!(
        tail[0],
        Event::DepositDeducted { rosca_id: 0, contributor: 3, recipient: 1, amount: 50, sufficient: false }
    ));
    assert!(matches!(tail[1], Event::ParticipantDefaulted { rosca_id: 0, participant: 3 }));
    assert!(matches!(tail[2], Event::ParticipantDefaulted { rosca_id: 0, participant: 2 }));
    assert!(matches!(
        tail[3],
        Event::NewRoundStarted { rosca_id: 0, new_eligible_recipient: 2 }
    ));
    assert!(matches!(
        tail[4],
        Event::ContributionMade { rosca_id: 0, contributor: 3, recipient: 2, amount: 100 }
    ));
}

#[test]
fn catch_up_settles_several_elapsed_rounds_at_once() {
    // Two full rounds elapse with no action; a single contribution first
    // settles both from deposits, then lands in the third round.
    let mut p = three_member_rosca();
    assert_eq!(p.start_rosca(1, 0), Ok(()));
    assert_eq!(p.add_to_security_deposit(2, 0, 300), Ok(()));
    assert_eq!(p.add_to_security_deposit(3, 0, 300), Ok(()));

    p.set_timestamp(25);  // rounds with deadlines 11 and 21 have elapsed
    assert_eq!(p.contribute_to_rosca(2, 0), Ok(()));
    assert_eq!(p.next_pay_by_timestamp(0), Some(31));
    assert_eq!(p.eligible_claimant(0), Some(3));
    // Round 1 (claimant 1): 2 and 3 each covered 100 from deposit.
    // Round 2 (claimant 2): 1 defaulted with nothing; 3 covered 100.
    assert_eq!(p.security_deposit(0, 2), Some(200));
    assert_eq!(p.security_deposit(0, 3), Some(100));
    assert_eq!(p.default_count(0, 1), 1);
    assert_eq!(p.default_count(0, 2), 0);
    assert_eq!(p.default_count(0, 3), 0);
}
