//! Plain data carried through the Rosca state machine: identifiers, the
//! immutable per-Rosca configuration, lifecycle phases, events and errors.

use vstd::prelude::*;

verus! {

/// Identifier of a Rosca. Roscas are numbered consecutively from zero.
pub type RoscaId = u32;

/// An opaque, comparable participant identity.
pub type AccountId = u64;

/// A ledger balance.
pub type Balance = u128;

/// A point in time; all deadlines and the clock use this unit.
pub type Moment = u64;

/// Greatest number of participants a single Rosca may hold.
pub const MAX_PARTICIPANTS: u32 = 150;

/// Greatest number of participants that can be invited to a Rosca
/// (everyone but the creator).
pub const MAX_INVITED_PARTICIPANTS: u32 = 149;

/// Escrow accounts of Roscas live in their own range of account
/// identifiers, disjoint from ordinary participants.
pub const ROSCA_ACCOUNT_BASE: u64 = 0x1_0000_0000_0000;

/// The assets a Rosca may denominate its contributions in.
#[derive(Clone, Copy, Debug, PartialEq, Eq, Structural)]
pub enum PaymentAssets {
    USDT,
    USDC,
}

impl PaymentAssets {
    /// The ledger asset identifier of this asset.
    pub fn id(&self) -> (r: u32)
        ensures
            r == self.id_spec(),
    {
        match self {
            PaymentAssets::USDT => 1984,
            PaymentAssets::USDC => 1337,
        }
    }

    /// What `id` returns for each asset.
    pub open spec fn id_spec(self) -> u32 {
        match self {
            PaymentAssets::USDT => 1984u32,
            PaymentAssets::USDC => 1337u32,
        }
    }
}

/// The lifecycle phase of a Rosca. A Rosca is in exactly one phase at any
/// time and `Completed` is terminal.
#[derive(Clone, Copy, Debug, PartialEq, Eq, Structural)]
pub enum Phase {
    Pending,
    Active,
    Completed,
}

/// The immutable configuration of a Rosca, fixed at creation.
#[derive(Debug)]
pub struct RoscaDetails {
    pub random_order: bool,
    pub number_of_participants: u32,
    pub minimum_participant_threshold: u32,
    pub contribution_amount: u32,
    pub payment_asset: PaymentAssets,
    pub contribution_frequency: Moment,
    pub start_by_timestamp: Moment,
    pub name: Vec<u8>,
}

/// One row of the precomputed schedule published when a Rosca starts:
/// the round's number, its payment cutoff, the participants expected to
/// contribute, and the round's recipient.
#[derive(Debug, PartialEq)]
pub struct RoundInfo {
    pub round_number: u32,
    pub payment_cutoff: Moment,
    pub expected_contributors: Vec<AccountId>,
    pub recipient: AccountId,
}

/// A notification emitted by a successful operation, consumed externally.
#[derive(Debug)]
pub enum Event {
    RoscaCreated {
        rosca_id: RoscaId,
        contribution_amount: Balance,
        contribution_frequency: Moment,
        random_order: bool,
        name: Vec<u8>,
        number_of_participants: u32,
        minimum_participant_threshold: u32,
        start_by_timestamp: Moment,
        eligible_participants: Vec<AccountId>,
        creator: AccountId,
    },
    ParticipantDefaulted { rosca_id: RoscaId, participant: AccountId },
    ContributionMade {
        rosca_id: RoscaId,
        contributor: AccountId,
        recipient: AccountId,
        amount: Balance,
    },
    DepositDeducted {
        rosca_id: RoscaId,
        contributor: AccountId,
        recipient: AccountId,
        amount: Balance,
        sufficient: bool,
    },
    JoinedRosca { rosca_id: RoscaId, contributor: AccountId },
    LeftRosca { rosca_id: RoscaId, contributor: AccountId },
    RoscaStarted { rosca_id: RoscaId, started_by: AccountId, rounds: Vec<RoundInfo> },
    RoscaComplete { rosca_id: RoscaId },
    SecurityDepositContribution { rosca_id: RoscaId, depositor: AccountId },
    SecurityDepositClaimed { rosca_id: RoscaId, depositor: AccountId },
    RoscaManuallyEnded { rosca_id: RoscaId },
    NewRoundStarted { rosca_id: RoscaId, new_eligible_recipient: AccountId },
}

/// Why an operation was rejected. Every error aborts the call with zero
/// partial effect.
#[derive(Clone, Copy, Debug, PartialEq, Eq, Structural)]
pub enum Error {
    ArithmeticOverflow,
    ArithmeticUnderflow,
    ArithmeticError,
    ContributionAmountMustBePositive,
    FrequencyMustBePositive,
    /// The start-by deadline must lie strictly in the future.
    StartByTimestampMustBeFuture,
    /// Too many proposed participants.
    TooManyProposedParticipants,
    /// The requested position does not exist in the claim order.
    PositionTooLarge,
    /// No Rosca with the given id in the expected phase.
    RoscaNotFound,
    /// The requested position is already filled.
    PositionAlreadyFilled,
    /// The participant already joined this Rosca.
    AlreadyJoined,
    /// The Rosca is already active.
    RoscaAlreadyActive,
    /// No security deposit recorded for this participant.
    SecurityDepositNotFound,
    /// The security deposit is zero.
    SecurityDepositIsZero,
    /// All positions of the pending order are filled.
    AllPositionsFilled,
    /// The caller is not a participant of this Rosca.
    NotAParticipant,
    /// Fewer confirmed participants than the configured threshold.
    ParticipantThresholdNotMet,
    /// Count of participants not found for this Rosca.
    RoscaParticipantCountNotFound,
    /// No claim order recorded for this Rosca.
    RoscaParticipantsNotFound,
    /// No next pay-by deadline recorded.
    NoNextPayByTimestamp,
    /// No final pay-by deadline recorded.
    FinalPayByTimestampNotFound,
    /// The Rosca is not active.
    RoscaNotActive,
    /// The eligible claimant cannot contribute to itself.
    CantContributeToSelf,
    /// No eligible claimant recorded.
    NoEligbleClaimant,
    /// The participant already contributed this round.
    AlreadyContributed,
    /// The final pay-by deadline must lie in the past.
    FinalPayByTimestampMustBePast,
    /// The Rosca is already completed.
    RoscaAlreadyCompleted,
    /// The caller was not invited to this Rosca.
    NotInvited,
    /// The creator cannot invite itself.
    CantInviteSelf,
    /// The participant threshold exceeds the number of participants.
    ThresholdTooHigh,
    /// The Rosca is still active.
    RoscaStillActive,
    /// Too many rounds in the generated schedule.
    TooManyRounds,
    /// The ledger reported insufficient funds for a transfer.
    FundsUnavailable,
}

} // verus!
