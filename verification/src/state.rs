//! The per-Rosca state bundle, its mathematical view, and the invariant
//! that every committed Rosca state satisfies.

use vstd::prelude::*;

use crate::rotation::num_filled;
use crate::types::PaymentAssets;
use crate::types::Phase;
use crate::types::RoscaDetails;
use crate::types::MAX_PARTICIPANTS;
use crate::umap::UMap;

verus! {

/// The full state a single Rosca carries, one bundle per id: its immutable
/// configuration, its lifecycle phase, the membership tables of the pending
/// phase, the rotating claim order of the active phase, the security
/// deposits, and the current round's bookkeeping.
pub struct RoscaState {
    /// Immutable configuration, fixed at creation.
    pub details: RoscaDetails,
    /// The lifecycle phase; `Completed` is terminal.
    pub phase: Phase,
    /// Fixed-size slots of the pending claim order; index is the desired
    /// position. Consumed at start and kept unchanged afterwards.
    pub pending_order: Vec<Option<u64>>,
    /// Everyone allowed to join, the creator included.
    pub invited: UMap<()>,
    /// Participant to pending position; used only for membership checks
    /// once the Rosca is active.
    pub positions: UMap<u32>,
    /// How many participants have joined.
    pub participants_count: u32,
    /// Participant to security-deposit balance.
    pub deposits: UMap<u32>,
    /// The rotating claim order; meaningful from start onwards.
    pub active_order: Vec<u64>,
    /// The designated recipient of the current round's pool.
    pub eligible_claimant: u64,
    /// The current round's payment deadline.
    pub next_pay_by: u64,
    /// The last round's payment deadline, fixed at start.
    pub final_pay_by: u64,
    /// Who has contributed in the current round.
    pub current_contributors: UMap<()>,
    /// How many contributions the current round has received.
    pub current_contribution_count: u32,
    /// Participant to number of recorded defaults; never reset.
    pub default_counts: UMap<u32>,
}

/// The mathematical view of a Rosca's state: the configuration as plain
/// values, membership as sets and maps, and the claim order as a sequence.
#[verifier::ext_equal]
pub struct RoscaV {
    pub random_order: bool,
    pub number_of_participants: u32,
    pub minimum_participant_threshold: u32,
    pub contribution_amount: u32,
    pub payment_asset: PaymentAssets,
    pub contribution_frequency: u64,
    pub start_by_timestamp: u64,
    pub name: Seq<u8>,
    pub phase: Phase,
    pub pending_order: Seq<Option<u64>>,
    pub invited: Set<u64>,
    pub positions: Map<u64, u32>,
    pub participants_count: u32,
    pub deposits: Map<u64, u32>,
    pub active_order: Seq<u64>,
    pub eligible_claimant: u64,
    pub next_pay_by: u64,
    pub final_pay_by: u64,
    pub marks: Set<u64>,
    pub contribution_count: u32,
    pub defaults: Map<u64, u32>,
}

impl View for RoscaState {
    type V = RoscaV;

    open spec fn view(&self) -> RoscaV {
        RoscaV {
            random_order: self.details.random_order,
            number_of_participants: self.details.number_of_participants,
            minimum_participant_threshold: self.details.minimum_participant_threshold,
            contribution_amount: self.details.contribution_amount,
            payment_asset: self.details.payment_asset,
            contribution_frequency: self.details.contribution_frequency,
            start_by_timestamp: self.details.start_by_timestamp,
            name: self.details.name@,
            phase: self.phase,
            pending_order: self.pending_order@,
            invited: self.invited@.dom(),
            positions: self.positions@,
            participants_count: self.participants_count,
            deposits: self.deposits@,
            active_order: self.active_order@,
            eligible_claimant: self.eligible_claimant,
            next_pay_by: self.next_pay_by,
            final_pay_by: self.final_pay_by,
            marks: self.current_contributors@.dom(),
            contribution_count: self.current_contribution_count,
            defaults: self.default_counts@,
        }
    }
}

impl RoscaState {
    /// The membership tables hold each key at most once.
    pub open spec fn wf(&self) -> bool {
        &&& self.invited.wf()
        &&& self.positions.wf()
        &&& self.deposits.wf()
        &&& self.current_contributors.wf()
        &&& self.default_counts.wf()
    }
}

/// What holds of every Rosca that has not started: the pending order has
/// one slot per expected participant, the joined count equals the number
/// of filled slots, the position table and the slots agree, and the
/// active-phase bookkeeping is still untouched.
pub open spec fn pending_inv(s: RoscaV) -> bool {
    &&& s.pending_order.len() == s.number_of_participants
    &&& s.participants_count as nat == num_filled(s.pending_order)
    &&& forall|i: int|
        0 <= i < s.pending_order.len() && s.pending_order[i] is Some ==> {
            let a = (#[trigger] s.pending_order[i])->Some_0;
            s.positions.contains_key(a) && s.positions[a] == i
        }
    &&& forall|a: u64|
        s.positions.contains_key(a) ==> 0 <= #[trigger] s.positions[a] < s.pending_order.len()
            && s.pending_order[s.positions[a] as int] == Some(a)
    &&& s.active_order.len() == 0
    &&& s.marks =~= Set::<u64>::empty()
    &&& s.contribution_count == 0
}

/// What holds of every Rosca from start onwards: the claim order has
/// exactly the confirmed participants, pairwise distinct, and the eligible
/// claimant heads it.
pub open spec fn started_inv(s: RoscaV) -> bool {
    &&& s.active_order.len() == s.participants_count
    &&& s.active_order.len() >= 1
    &&& s.active_order.no_duplicates()
    &&& s.eligible_claimant == s.active_order[0]
}

/// The invariant of every committed Rosca state. While active, the
/// eligible claimant never holds a contribution mark, the next pay-by
/// deadline never exceeds the final one, and the two stay apart by a
/// whole number of frequency increments.
pub open spec fn rosca_inv(s: RoscaV) -> bool {
    &&& s.contribution_amount >= 1
    &&& s.contribution_frequency >= 1
    &&& 1 <= s.number_of_participants <= MAX_PARTICIPANTS
    &&& s.minimum_participant_threshold <= s.number_of_participants
    &&& match s.phase {
        Phase::Pending => pending_inv(s),
        Phase::Active => {
            &&& started_inv(s)
            &&& !s.marks.contains(s.eligible_claimant)
            &&& s.next_pay_by <= s.final_pay_by
            &&& (s.final_pay_by - s.next_pay_by) % (s.contribution_frequency as int) == 0
            &&& s.active_order.len() >= 2 ==> s.contribution_count as int <= s.active_order.len()
                - 2
        },
        Phase::Completed => started_inv(s),
    }
}

} // verus!
