//! What each operation of the state machine does, as total functions on
//! the mathematical view of a Rosca and of the ledger. The executable
//! operations are proved to return exactly these results.

use vstd::prelude::*;

use crate::ledger::spec_transfer;
use crate::rotation::first_none;
use crate::rotation::rev_filled;
use crate::rotation::rotated_right;
use crate::rotation::spec_shuffle;
use crate::state::RoscaV;
use crate::types::Error;
use crate::types::Event;
use crate::types::PaymentAssets;
use crate::types::Phase;
use crate::types::MAX_PARTICIPANTS;

verus! {

/// The security deposit a participant holds; absent participants hold
/// zero.
pub open spec fn dep_of(m: Map<u64, u32>, a: u64) -> u32 {
    if m.contains_key(a) {
        m[a]
    } else {
        0u32
    }
}

/// The default counter of a participant; absent participants count zero.
pub open spec fn def_of(m: Map<u64, u32>, a: u64) -> u32 {
    if m.contains_key(a) {
        m[a]
    } else {
        0u32
    }
}

/// A default table with one participant's counter raised by one,
/// saturating.
pub open spec fn bumped(m: Map<u64, u32>, a: u64) -> Map<u64, u32> {
    m.insert(
        a,
        if def_of(m, a) == u32::MAX {
            u32::MAX
        } else {
            (def_of(m, a) + 1) as u32
        },
    )
}

/// The tables a defaulter settlement acts on: deposits, default counters
/// and ledger balances.
#[verifier::ext_equal]
pub struct Settled {
    pub deposits: Map<u64, u32>,
    pub defaults: Map<u64, u32>,
    pub balances: Map<u64, u128>,
}

/// Settles one participant of the current round. The eligible claimant
/// and everyone who contributed are left alone. A missed contribution is
/// covered in full from the deposit when it suffices; otherwise whatever
/// deposit remains goes to the claimant and a default is recorded.
pub open spec fn spec_settle_one(
    claimant: u64,
    amount: u32,
    marks: Set<u64>,
    pot: u64,
    st: Settled,
    p: u64,
) -> Result<Settled, Error> {
    if p == claimant || marks.contains(p) {
        Ok(st)
    } else {
        let dep = dep_of(st.deposits, p);
        if dep < amount {
            if dep > 0 {
                match spec_transfer(st.balances, pot, claimant, dep as u128) {
                    Err(e) => Err(e),
                    Ok(b2) => Ok(
                        Settled {
                            deposits: st.deposits.insert(p, 0u32),
                            defaults: bumped(st.defaults, p),
                            balances: b2,
                        },
                    ),
                }
            } else {
                Ok(Settled { defaults: bumped(st.defaults, p), ..st })
            }
        } else {
            match spec_transfer(st.balances, pot, claimant, amount as u128) {
                Err(e) => Err(e),
                Ok(b2) => Ok(
                    Settled {
                        deposits: st.deposits.insert(p, (dep - amount) as u32),
                        balances: b2,
                        ..st
                    },
                ),
            }
        }
    }
}

/// Settles the first `n` members of the claim order, in order.
pub open spec fn spec_settle_upto(
    claimant: u64,
    amount: u32,
    marks: Set<u64>,
    pot: u64,
    order: Seq<u64>,
    n: int,
    st: Settled,
) -> Result<Settled, Error>
    decreases n,
{
    if n <= 0 {
        Ok(st)
    } else {
        match spec_settle_upto(claimant, amount, marks, pot, order, n - 1, st) {
            Err(e) => Err(e),
            Ok(st1) => spec_settle_one(claimant, amount, marks, pot, st1, order[n - 1]),
        }
    }
}

/// One elapsed round settled: every missed contribution is drawn from its
/// deposit, then the round advances — the deadline moves by one frequency
/// increment, the trailing member becomes the claimant, the order rotates
/// right by one and the round's marks are cleared. (An empty order cannot
/// advance; the state invariant keeps the order of a started Rosca
/// non-empty.)
pub open spec fn spec_settle_round(s: RoscaV, bal: Map<u64, u128>, pot: u64) -> Result<
    (RoscaV, Map<u64, u128>),
    Error,
> {
    match spec_settle_upto(
        s.eligible_claimant,
        s.contribution_amount,
        s.marks,
        pot,
        s.active_order,
        s.active_order.len() as int,
        Settled { deposits: s.deposits, defaults: s.defaults, balances: bal },
    ) {
        Err(e) => Err(e),
        Ok(st) => {
            if s.active_order.len() == 0 {
                Err(Error::ArithmeticError)
            } else if s.next_pay_by as int + s.contribution_frequency as int > u64::MAX as int {
                Err(Error::ArithmeticOverflow)
            } else {
                Ok(
                    (
                        RoscaV {
                            deposits: st.deposits,
                            defaults: st.defaults,
                            next_pay_by: (s.next_pay_by + s.contribution_frequency) as u64,
                            eligible_claimant: s.active_order.last(),
                            active_order: rotated_right(s.active_order),
                            marks: Set::empty(),
                            contribution_count: 0u32,
                            ..s
                        },
                        st.balances,
                    ),
                )
            }
        },
    }
}

/// Marks a Rosca completed once its deadline has moved past the final
/// pay-by deadline.
pub open spec fn spec_complete_check(s: RoscaV) -> RoscaV {
    if s.next_pay_by > s.final_pay_by {
        RoscaV { phase: Phase::Completed, ..s }
    } else {
        s
    }
}

/// Catch-up: settles one elapsed round after another, checking completion
/// after each, until the current time lies before the next pay-by
/// deadline. A round cannot be settled on a Rosca that is no longer
/// active. (A zero frequency could not advance time and is rejected; the
/// state invariant keeps the frequency positive.)
pub open spec fn spec_catch_up(s: RoscaV, bal: Map<u64, u128>, pot: u64, now: u64) -> Result<
    (RoscaV, Map<u64, u128>),
    Error,
>
    decreases
            (if s.contribution_frequency >= 1 && now >= s.next_pay_by {
                now - s.next_pay_by + 1
            } else {
                0int
            }),
{
    if now < s.next_pay_by {
        Ok((s, bal))
    } else if !(s.phase is Active) {
        Err(Error::RoscaNotActive)
    } else if s.contribution_frequency == 0 {
        Err(Error::ArithmeticError)
    } else {
        match spec_settle_round(s, bal, pot) {
            Err(e) => Err(e),
            Ok((s1, b1)) => spec_catch_up(spec_complete_check(s1), b1, pot, now),
        }
    }
}

/// What a contribution does: the entry checks, then catch-up of elapsed
/// rounds, then — with the claimant in force re-checked, since catch-up
/// may have rotated eligibility — the transfer to the eligible claimant
/// and the contribution mark; when the contribution is the round's last,
/// the round completes inline: the Rosca either becomes completed or the
/// order rotates into the next round. A participant can never contribute
/// while they are the eligible claimant, neither at entry nor after
/// catch-up.
pub open spec fn spec_contribute(
    s: RoscaV,
    bal: Map<u64, u128>,
    signer: u64,
    now: u64,
    pot: u64,
) -> Result<(RoscaV, Map<u64, u128>), Error> {
    if !s.positions.contains_key(signer) {
        Err(Error::NotAParticipant)
    } else if s.phase is Completed {
        Err(Error::RoscaAlreadyCompleted)
    } else if !(s.phase is Active) {
        Err(Error::RoscaNotActive)
    } else if s.eligible_claimant == signer {
        Err(Error::CantContributeToSelf)
    } else if s.marks.contains(signer) {
        Err(Error::AlreadyContributed)
    } else {
        match spec_catch_up(s, bal, pot, now) {
            Err(e) => Err(e),
            Ok((s1, b1)) => if s1.eligible_claimant == signer {
                Err(Error::CantContributeToSelf)
            } else {
                match spec_transfer(
                b1,
                signer,
                s1.eligible_claimant,
                s.contribution_amount as u128,
            ) {
                Err(e) => Err(e),
                Ok(b2) => {
                    if s1.contribution_count == u32::MAX {
                        Err(Error::ArithmeticOverflow)
                    } else {
                        let s2 = RoscaV {
                            marks: s1.marks.insert(signer),
                            contribution_count: (s1.contribution_count + 1) as u32,
                            ..s1
                        };
                        if s2.contribution_count as int == s1.active_order.len() - 1 {
                            if s1.next_pay_by as int + s1.contribution_frequency as int
                                > u64::MAX as int {
                                Err(Error::ArithmeticOverflow)
                            } else {
                                let next2 = (s1.next_pay_by + s1.contribution_frequency) as u64;
                                if next2 > s1.final_pay_by {
                                    Ok((RoscaV { phase: Phase::Completed, ..s2 }, b2))
                                } else {
                                    Ok(
                                        (
                                            RoscaV {
                                                next_pay_by: next2,
                                                eligible_claimant: s2.active_order.last(),
                                                active_order: rotated_right(s2.active_order),
                                                marks: Set::empty(),
                                                contribution_count: 0u32,
                                                ..s2
                                            },
                                            b2,
                                        ),
                                    )
                                }
                            }
                        } else {
                            Ok((s2, b2))
                        }
                    }
                },
            }
            },
        }
    }
}

/// Settles every round whose deadline lies at or before the final pay-by
/// deadline, without completion checks in between.
pub open spec fn spec_settle_till_final(s: RoscaV, bal: Map<u64, u128>, pot: u64) -> Result<
    (RoscaV, Map<u64, u128>),
    Error,
>
    decreases
            (if s.contribution_frequency >= 1 && s.next_pay_by <= s.final_pay_by {
                s.final_pay_by - s.next_pay_by + 1
            } else {
                0int
            }),
{
    if s.next_pay_by > s.final_pay_by {
        Ok((s, bal))
    } else if s.contribution_frequency == 0 {
        Err(Error::ArithmeticError)
    } else {
        match spec_settle_round(s, bal, pot) {
            Err(e) => Err(e),
            Ok((s1, b1)) => spec_settle_till_final(s1, b1, pot),
        }
    }
}

/// What manually ending does: on an active Rosca whose final pay-by
/// deadline has passed, every outstanding round is settled from deposits,
/// the deadline is checked to rest exactly one increment past the final
/// one, and the Rosca becomes completed.
pub open spec fn spec_manual_end(s: RoscaV, bal: Map<u64, u128>, pot: u64, now: u64) -> Result<
    (RoscaV, Map<u64, u128>),
    Error,
> {
    if !(s.phase is Active) {
        Err(Error::RoscaNotActive)
    } else if now <= s.final_pay_by {
        Err(Error::FinalPayByTimestampMustBePast)
    } else {
        match spec_settle_till_final(s, bal, pot) {
            Err(e) => Err(e),
            Ok((s1, b1)) => {
                if s1.next_pay_by as int != s.final_pay_by as int
                    + s.contribution_frequency as int {
                    Err(Error::ArithmeticError)
                } else {
                    Ok((RoscaV { phase: Phase::Completed, ..s1 }, b1))
                }
            },
        }
    }
}

/// What creation does: the configuration is validated, the invited set is
/// deduplicated and registered together with the creator, and a fresh
/// pending Rosca is seeded with the creator at its chosen position.
pub open spec fn spec_create(
    signer: u64,
    random_order: bool,
    invited: Seq<u64>,
    minimum_participant_threshold: u32,
    contribution_amount: u32,
    payment_asset: PaymentAssets,
    contribution_frequency: u64,
    start_by_timestamp: u64,
    position: Option<u32>,
    name: Seq<u8>,
    now: u64,
) -> Result<RoscaV, Error> {
    let pos = match position {
        Some(p) => p,
        None => 0u32,
    };
    let n = invited.to_set().len() + 1;
    if contribution_amount == 0 {
        Err(Error::ContributionAmountMustBePositive)
    } else if contribution_frequency == 0 {
        Err(Error::FrequencyMustBePositive)
    } else if invited.contains(signer) {
        Err(Error::CantInviteSelf)
    } else if minimum_participant_threshold as int > n {
        Err(Error::ThresholdTooHigh)
    } else if pos >= MAX_PARTICIPANTS {
        Err(Error::PositionTooLarge)
    } else if now >= start_by_timestamp {
        Err(Error::StartByTimestampMustBeFuture)
    } else if n > MAX_PARTICIPANTS as int {
        Err(Error::TooManyProposedParticipants)
    } else if pos as int >= n {
        Err(Error::PositionTooLarge)
    } else {
        Ok(
            RoscaV {
                random_order,
                number_of_participants: n as u32,
                minimum_participant_threshold,
                contribution_amount,
                payment_asset,
                contribution_frequency,
                start_by_timestamp,
                name,
                phase: Phase::Pending,
                pending_order: Seq::new(
                    n as nat,
                    |i: int|
                        if i == pos as int {
                            Some(signer)
                        } else {
                            None
                        },
                ),
                invited: invited.to_set().insert(signer),
                positions: Map::empty().insert(signer, pos),
                participants_count: 1u32,
                deposits: Map::empty(),
                active_order: Seq::empty(),
                eligible_claimant: 0u64,
                next_pay_by: 0u64,
                final_pay_by: 0u64,
                marks: Set::empty(),
                contribution_count: 0u32,
                defaults: Map::empty(),
            },
        )
    }
}

/// What joining does: an invited newcomer fills the requested slot, or the
/// first empty one when none is requested, before the start-by deadline of
/// a still-pending Rosca.
pub open spec fn spec_join(s: RoscaV, signer: u64, position: Option<u32>, now: u64) -> Result<
    RoscaV,
    Error,
> {
    if s.phase is Active {
        Err(Error::RoscaAlreadyActive)
    } else if s.positions.contains_key(signer) {
        Err(Error::AlreadyJoined)
    } else if !s.invited.contains(signer) {
        Err(Error::NotInvited)
    } else if !(s.phase is Pending) {
        Err(Error::RoscaNotFound)
    } else if now >= s.start_by_timestamp {
        Err(Error::StartByTimestampMustBeFuture)
    } else {
        let slot = match position {
            Some(p) => if p as int >= s.pending_order.len() {
                Err(Error::PositionTooLarge)
            } else if s.pending_order[p as int] is Some {
                Err(Error::PositionAlreadyFilled)
            } else {
                Ok(p as int)
            },
            None => match first_none(s.pending_order) {
                None => Err(Error::AllPositionsFilled),
                Some(i) => Ok(i),
            },
        };
        match slot {
            Err(e) => Err(e),
            Ok(i) => {
                if s.participants_count == u32::MAX {
                    Err(Error::ArithmeticOverflow)
                } else {
                    Ok(
                        RoscaV {
                            pending_order: s.pending_order.update(i, Some(signer)),
                            positions: s.positions.insert(signer, i as u32),
                            participants_count: (s.participants_count + 1) as u32,
                            ..s
                        },
                    )
                }
            },
        }
    }
}

/// What leaving does: a participant of a still-pending Rosca clears its
/// slot and is refunded any security deposit in full.
pub open spec fn spec_leave(s: RoscaV, bal: Map<u64, u128>, signer: u64, pot: u64) -> Result<
    (RoscaV, Map<u64, u128>),
    Error,
> {
    if s.phase is Active {
        Err(Error::RoscaAlreadyActive)
    } else if !s.positions.contains_key(signer) {
        Err(Error::NotAParticipant)
    } else if !(s.phase is Pending) {
        Err(Error::RoscaNotFound)
    } else if s.participants_count == 0 {
        Err(Error::ArithmeticUnderflow)
    } else {
        let idx = s.positions[signer];
        let s1 = RoscaV {
            pending_order: s.pending_order.update(idx as int, None),
            positions: s.positions.remove(signer),
            participants_count: (s.participants_count - 1) as u32,
            ..s
        };
        let dep = dep_of(s.deposits, signer);
        if dep > 0 {
            match spec_transfer(bal, pot, signer, dep as u128) {
                Err(e) => Err(e),
                Ok(b2) => Ok((RoscaV { deposits: s1.deposits.remove(signer), ..s1 }, b2)),
            }
        } else {
            Ok((s1, bal))
        }
    }
}

/// What starting does: with the threshold met before the start-by
/// deadline, the pending order is reversed and compacted (earliest joiners
/// claim last), optionally shuffled from the injected entropy, the
/// trailing member becomes the first eligible claimant, the order rotates
/// right by one, and the two pay-by deadlines are fixed.
pub open spec fn spec_start(s: RoscaV, signer: u64, now: u64, entropy: Seq<u8>) -> Result<
    RoscaV,
    Error,
> {
    if s.phase is Active {
        Err(Error::RoscaAlreadyActive)
    } else if !s.positions.contains_key(signer) {
        Err(Error::NotAParticipant)
    } else if !(s.phase is Pending) {
        Err(Error::RoscaNotFound)
    } else if now >= s.start_by_timestamp {
        Err(Error::StartByTimestampMustBeFuture)
    } else if s.participants_count < s.minimum_participant_threshold {
        Err(Error::ParticipantThresholdNotMet)
    } else {
        let base = rev_filled(s.pending_order);
        if base.len() > MAX_PARTICIPANTS as int {
            Err(Error::TooManyProposedParticipants)
        } else {
            let ordered = if s.random_order {
                spec_shuffle(base, entropy, 0)
            } else {
                base
            };
            if ordered.len() == 0 {
                Err(Error::ArithmeticError)
            } else if now as int + s.participants_count as int * s.contribution_frequency as int
                > u64::MAX as int {
                Err(Error::ArithmeticOverflow)
            } else {
                Ok(
                    RoscaV {
                        phase: Phase::Active,
                        active_order: rotated_right(ordered),
                        eligible_claimant: ordered.last(),
                        next_pay_by: (now + s.contribution_frequency) as u64,
                        final_pay_by: (now as int + s.participants_count as int
                            * s.contribution_frequency as int) as u64,
                        ..s
                    },
                )
            }
        }
    }
}

/// What adding to a security deposit does: a participant of a Rosca that
/// is not completed moves the amount into the Rosca's escrow and has it
/// credited to its recorded deposit.
pub open spec fn spec_add_deposit(
    s: RoscaV,
    bal: Map<u64, u128>,
    signer: u64,
    amount: u32,
    pot: u64,
) -> Result<(RoscaV, Map<u64, u128>), Error> {
    if !s.positions.contains_key(signer) {
        Err(Error::NotAParticipant)
    } else if s.phase is Completed {
        Err(Error::RoscaAlreadyCompleted)
    } else {
        match spec_transfer(bal, signer, pot, amount as u128) {
            Err(e) => Err(e),
            Ok(b2) => {
                if dep_of(s.deposits, signer) as int + amount as int > u32::MAX as int {
                    Err(Error::ArithmeticOverflow)
                } else {
                    Ok(
                        (
                            RoscaV {
                                deposits: s.deposits.insert(
                                    signer,
                                    (dep_of(s.deposits, signer) + amount) as u32,
                                ),
                                ..s
                            },
                            b2,
                        ),
                    )
                }
            },
        }
    }
}

/// What claiming a security deposit does: once the final pay-by deadline
/// has passed and the Rosca is no longer active, the full recorded balance
/// is returned and the record dropped.
pub open spec fn spec_claim_deposit(s: RoscaV, bal: Map<u64, u128>, signer: u64, pot: u64, now: u64)
    -> Result<(RoscaV, Map<u64, u128>), Error> {
    if s.phase is Pending {
        Err(Error::FinalPayByTimestampNotFound)
    } else if now <= s.final_pay_by {
        Err(Error::FinalPayByTimestampMustBePast)
    } else if s.phase is Active {
        Err(Error::RoscaStillActive)
    } else if !s.deposits.contains_key(signer) {
        Err(Error::SecurityDepositNotFound)
    } else if s.deposits[signer] == 0 {
        Err(Error::SecurityDepositIsZero)
    } else {
        match spec_transfer(bal, pot, signer, s.deposits[signer] as u128) {
            Err(e) => Err(e),
            Ok(b2) => Ok((RoscaV { deposits: s.deposits.remove(signer), ..s }, b2)),
        }
    }
}


/// Once settling hits an error on some prefix, every longer prefix stops
/// with the same error.
pub proof fn lemma_settle_upto_error(
    claimant: u64,
    amount: u32,
    marks: Set<u64>,
    pot: u64,
    order: Seq<u64>,
    j: int,
    n: int,
    st: Settled,
)
    requires
        0 <= j <= n,
        spec_settle_upto(claimant, amount, marks, pot, order, j, st) is Err,
    ensures
        spec_settle_upto(claimant, amount, marks, pot, order, n, st) == spec_settle_upto(
            claimant,
            amount,
            marks,
            pot,
            order,
            j,
            st,
        ),
    decreases n - j,
{
    if j < n {
        lemma_settle_upto_error(claimant, amount, marks, pot, order, j + 1, n, st);
    }
}


/// The notifications settling one participant emits: a deduction when
/// anything was drawn from the deposit, and a recorded default when the
/// deposit did not cover the contribution.
pub open spec fn spec_settle_one_events(
    claimant: u64,
    amount: u32,
    marks: Set<u64>,
    st: Settled,
    p: u64,
    rosca_id: u32,
) -> Seq<Event> {
    if p == claimant || marks.contains(p) {
        Seq::empty()
    } else {
        let dep = dep_of(st.deposits, p);
        if dep < amount {
            if dep > 0 {
                seq![
                    Event::DepositDeducted {
                        rosca_id,
                        contributor: p,
                        recipient: claimant,
                        amount: dep as u128,
                        sufficient: false,
                    },
                    Event::ParticipantDefaulted { rosca_id, participant: p },
                ]
            } else {
                seq![Event::ParticipantDefaulted { rosca_id, participant: p }]
            }
        } else {
            seq![
                Event::DepositDeducted {
                    rosca_id,
                    contributor: p,
                    recipient: claimant,
                    amount: amount as u128,
                    sufficient: true,
                },
            ]
        }
    }
}

/// The notifications settling the first `n` members emits, in order.
/// Meaningful only where the settlement succeeds; an aborted call emits
/// nothing.
pub open spec fn spec_settle_upto_events(
    claimant: u64,
    amount: u32,
    marks: Set<u64>,
    pot: u64,
    order: Seq<u64>,
    n: int,
    st: Settled,
    rosca_id: u32,
) -> Seq<Event>
    decreases n,
{
    if n <= 0 {
        Seq::empty()
    } else {
        match spec_settle_upto(claimant, amount, marks, pot, order, n - 1, st) {
            Err(_) => Seq::empty(),
            Ok(st1) => spec_settle_upto_events(claimant, amount, marks, pot, order, n - 1, st, rosca_id)
                + spec_settle_one_events(claimant, amount, marks, st1, order[n - 1], rosca_id),
        }
    }
}

/// The notifications one settled round emits: the per-participant
/// deductions and defaults, then the start of the new round.
pub open spec fn spec_settle_round_events(
    s: RoscaV,
    bal: Map<u64, u128>,
    pot: u64,
    rosca_id: u32,
) -> Seq<Event> {
    spec_settle_upto_events(
        s.eligible_claimant,
        s.contribution_amount,
        s.marks,
        pot,
        s.active_order,
        s.active_order.len() as int,
        Settled { deposits: s.deposits, defaults: s.defaults, balances: bal },
        rosca_id,
    ).push(
        Event::NewRoundStarted { rosca_id, new_eligible_recipient: s.active_order.last() },
    )
}

/// The notifications catch-up emits: those of each settled round, and a
/// completion notice where an advancement pushed the deadline past the
/// final one.
pub open spec fn spec_catch_up_events(
    s: RoscaV,
    bal: Map<u64, u128>,
    pot: u64,
    now: u64,
    rosca_id: u32,
) -> Seq<Event>
    decreases
            (if s.contribution_frequency >= 1 && now >= s.next_pay_by {
                now - s.next_pay_by + 1
            } else {
                0int
            }),
{
    if now < s.next_pay_by {
        Seq::empty()
    } else if !(s.phase is Active) {
        Seq::empty()
    } else if s.contribution_frequency == 0 {
        Seq::empty()
    } else {
        match spec_settle_round(s, bal, pot) {
            Err(_) => Seq::empty(),
            Ok((s1, b1)) => spec_settle_round_events(s, bal, pot, rosca_id) + (if s1.next_pay_by
                > s1.final_pay_by {
                seq![Event::RoscaComplete { rosca_id }]
            } else {
                Seq::empty()
            }) + spec_catch_up_events(spec_complete_check(s1), b1, pot, now, rosca_id),
        }
    }
}

/// The notifications a successful contribution emits: those of catch-up,
/// the contribution itself, and — when it was the round's last — either
/// the completion notice or the start of the next round.
pub open spec fn spec_contribute_events(
    s: RoscaV,
    bal: Map<u64, u128>,
    signer: u64,
    now: u64,
    pot: u64,
    rosca_id: u32,
) -> Seq<Event> {
    match spec_catch_up(s, bal, pot, now) {
        Err(_) => Seq::empty(),
        Ok((s1, b1)) => {
            let base = spec_catch_up_events(s, bal, pot, now, rosca_id).push(
                Event::ContributionMade {
                    rosca_id,
                    contributor: signer,
                    recipient: s1.eligible_claimant,
                    amount: s.contribution_amount as u128,
                },
            );
            if s1.contribution_count as int + 1 == s1.active_order.len() - 1 {
                if s1.next_pay_by as int + s1.contribution_frequency as int > u64::MAX as int {
                    base
                } else if s1.next_pay_by + s1.contribution_frequency > s1.final_pay_by {
                    base.push(Event::RoscaComplete { rosca_id })
                } else {
                    base.push(
                        Event::NewRoundStarted {
                            rosca_id,
                            new_eligible_recipient: s1.active_order.last(),
                        },
                    )
                }
            } else {
                base
            }
        },
    }
}

/// The notifications settling every outstanding round emits.
pub open spec fn spec_settle_till_final_events(
    s: RoscaV,
    bal: Map<u64, u128>,
    pot: u64,
    rosca_id: u32,
) -> Seq<Event>
    decreases
            (if s.contribution_frequency >= 1 && s.next_pay_by <= s.final_pay_by {
                s.final_pay_by - s.next_pay_by + 1
            } else {
                0int
            }),
{
    if s.next_pay_by > s.final_pay_by {
        Seq::empty()
    } else if s.contribution_frequency == 0 {
        Seq::empty()
    } else {
        match spec_settle_round(s, bal, pot) {
            Err(_) => Seq::empty(),
            Ok((s1, b1)) => spec_settle_round_events(s, bal, pot, rosca_id)
                + spec_settle_till_final_events(s1, b1, pot, rosca_id),
        }
    }
}

/// The notifications a successful manual end emits: those of every
/// outstanding round, then the completion notice.
pub open spec fn spec_manual_end_events(
    s: RoscaV,
    bal: Map<u64, u128>,
    pot: u64,
    rosca_id: u32,
) -> Seq<Event> {
    spec_settle_till_final_events(s, bal, pot, rosca_id).push(Event::RoscaComplete { rosca_id })
}

} // verus!
